//! Raw reference individuals as the population collaborator hands them over,
//! and the normalization their text fields go through before scoring.

use vstd::prelude::*;

verus! {

use crate::bytes::bytes_equal;


/// One reference individual, all fields raw: the term and gene fields are
/// delimited strings, parsed only where the scoring logic needs them.
pub struct Individual {
    pub id: Vec<u8>,
    pub terms: Vec<u8>,
    pub genes: Vec<u8>,
    pub diagnosis: Vec<u8>,
    pub hpo_names: Vec<u8>,
}

/// The field with every `.` removed.
pub open spec fn strip_dots(s: Seq<u8>) -> Seq<u8> {
    s.filter(|c: u8| c != 46)
}

/// The spellings of a missing value.
pub open spec fn none_marker(s: Seq<u8>) -> bool {
    ||| s == seq![78u8, 79u8, 78u8, 69u8]
    ||| s == seq![78u8, 111u8, 110u8, 101u8]
    ||| s == seq![110u8, 111u8, 110u8, 101u8]
}

/// What field normalization yields: dots removed, and a bare `NONE`, `None`
/// or `none` turned into the empty field.
pub open spec fn clean_field_spec(s: Seq<u8>) -> Seq<u8> {
    if none_marker(strip_dots(s)) {
        Seq::empty()
    } else {
        strip_dots(s)
    }
}

/// Normalizes a raw population field: removes every `.` and maps the
/// missing-value spellings `NONE`, `None` and `none` to the empty field.
pub fn clean_population_field(s: &Vec<u8>) -> (r: Vec<u8>)
    ensures
        r@ == clean_field_spec(s@),
{
    let n = s.len();
    let mut out: Vec<u8> = Vec::new();
    let mut i: usize = 0;
    while i < n
        invariant
            i <= n,
            n == s@.len(),
            out@ == s@.take(i as int).filter(|c: u8| c != 46),
        decreases n - i,
    {
        let c = s[i];
        proof {
            assert(s@.take(i + 1) =~= s@.take(i as int).push(s@[i as int]));
            s@.take(i as int).lemma_filter_push(s@[i as int], |c: u8| c != 46);
        }
        if c != 46 {
            out.push(c);
        }
        i += 1;
    }
    proof {
        assert(s@.take(n as int) =~= s@);
    }
    let upper = vec![78u8, 79u8, 78u8, 69u8];
    let title = vec![78u8, 111u8, 110u8, 101u8];
    let lower = vec![110u8, 111u8, 110u8, 101u8];
    proof {
        assert(upper@ =~= seq![78u8, 79u8, 78u8, 69u8]);
        assert(title@ =~= seq![78u8, 111u8, 110u8, 101u8]);
        assert(lower@ =~= seq![110u8, 111u8, 110u8, 101u8]);
    }
    if bytes_equal(&out, &upper) || bytes_equal(&out, &title) || bytes_equal(&out, &lower) {
        let empty: Vec<u8> = Vec::new();
        return empty;
    }
    out
}

} // verus!
