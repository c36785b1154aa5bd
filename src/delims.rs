use vstd::prelude::*;

verus! {

/// A set of delimiter bytes, held as one flag per byte value.
///
/// Taking the predicate apart into a table once makes it a plain value: every later test of a
/// byte is a lookup, free of side effects and safe to share between workers.
pub struct DelimSet {
    table: Vec<bool>,
}

impl View for DelimSet {
    type V = Set<u8>;

    closed spec fn view(&self) -> Set<u8> {
        Set::new(|b: u8| self.table@[b as int])
    }
}

impl DelimSet {
    #[verifier::type_invariant]
    spec fn has_all_bytes(&self) -> bool {
        self.table@.len() == 256
    }

    /// Tabulates the predicate `isdelim` over all byte values.
    pub fn from_fn<F: Fn(&u8) -> bool>(isdelim: F) -> (r: DelimSet)
        requires
            forall|b: u8| isdelim.requires((&b,)),
        ensures
            forall|b: u8| isdelim.ensures((&b,), #[trigger] r@.contains(b)),
    {
        let mut table: Vec<bool> = Vec::new();
        let mut i: usize = 0;
        while i < 256
            invariant
                i <= 256,
                table@.len() == i,
                forall|b: u8| isdelim.requires((&b,)),
                forall|j: int| 0 <= j < i ==> isdelim.ensures((&(j as u8),), #[trigger] table@[j]),
            decreases 256 - i,
        {
            let b: u8 = i as u8;
            let v = isdelim(&b);
            table.push(v);
            i = i + 1;
        }
        let r = DelimSet { table };
        assert forall|b: u8| isdelim.ensures((&b,), #[trigger] r@.contains(b)) by {
            assert(r.table@[b as int] == r@.contains(b));
            assert((b as int) as u8 == b);
        }
        r
    }

    /// Whether `b` is a delimiter.
    pub fn contains(&self, b: u8) -> (r: bool)
        ensures
            r == self@.contains(b),
    {
        proof {
            use_type_invariant(self);
        }
        self.table[b as usize]
    }
}

/// The bytes that C's `isspace` or `ispunct` accept in the "C" locale.
pub open spec fn is_space_or_punct(c: u8) -> bool {
    ||| 9 <= c <= 13
    ||| c == 32
    ||| 33 <= c <= 47
    ||| 58 <= c <= 64
    ||| 91 <= c <= 96
    ||| 123 <= c <= 126
}

/// The usual word delimiter: ASCII white space (vertical tab included) and ASCII punctuation.
pub fn isdelim(c: &u8) -> (r: bool)
    ensures
        r == is_space_or_punct(*c),
{
    let c = *c;
    // tab, line feed, vertical tab, form feed, carriage return, space
    let space = (9 <= c && c <= 13) || c == 32;
    let punct = (33 <= c && c <= 47) || (58 <= c && c <= 64) || (91 <= c && c <= 96) || (123
        <= c && c <= 126);
    space || punct
}

} // verus!
