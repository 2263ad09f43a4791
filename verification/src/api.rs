use vstd::prelude::*;

use crate::error::Error;

verus! {

/// A client handle for the remote service, carrying the access token that
/// every authenticated request attaches. The request plumbing itself lives
/// with the caller; the library only keeps the token.
#[derive(Debug, Clone)]
pub struct Api {
    access_token: String,
}

impl View for Api {
    type V = Seq<char>;

    closed spec fn view(&self) -> Seq<char> {
        self.access_token@
    }
}

impl Api {
    /// Build a client handle from an access token.
    pub fn new(access_token: &str) -> (r: Api)
        ensures
            r@ == access_token@,
    {
        Api { access_token: access_token.to_owned() }
    }

    /// The access token this handle was built from.
    pub fn token(&self) -> (r: &str)
        ensures
            r@ == self@,
    {
        self.access_token.as_str()
    }
}

/// Every tag names a slot of the result.
pub open spec fn tags_in_range<T>(pairs: Seq<(usize, T)>) -> bool {
    forall|j: int| 0 <= j < pairs.len() ==> (#[trigger] pairs[j]).0 < pairs.len()
}

/// No two values carry the same tag.
pub open spec fn tags_distinct<T>(pairs: Seq<(usize, T)>) -> bool {
    forall|j: int, k: int|
        0 <= j < k < pairs.len() ==> (#[trigger] pairs[j]).0 != (#[trigger] pairs[k]).0
}

/// Some tag names slot `s`.
pub open spec fn slot_covered<T>(pairs: Seq<(usize, T)>, s: int) -> bool {
    exists|t: int| 0 <= t < pairs.len() && (#[trigger] pairs[t]).0 == s
}

/// Every slot of the result is named by some tag.
pub open spec fn tags_cover<T>(pairs: Seq<(usize, T)>) -> bool {
    forall|s: int| 0 <= s < pairs.len() ==> #[trigger] slot_covered(pairs, s)
}

/// Put results produced in completion order back into submission order.
///
/// A pool that runs many tasks at once finishes them in whatever order the
/// scheduler happens to pick, so each task carries the index it was submitted
/// under. This function rebuilds the submission-ordered list: slot `i` of the
/// result receives the value tagged `i`. It fails exactly when the tags do not
/// name every slot once.
#[verifier::loop_isolation(false)]
pub fn reorder_by_index<T>(pairs: Vec<(usize, T)>) -> (r: Result<Vec<T>, Error>)
    ensures
        r matches Ok(out) ==> {
            &&& out@.len() == pairs@.len()
            &&& forall|j: int|
                0 <= j < pairs@.len() ==> out@[(#[trigger] pairs@[j]).0 as int] == pairs@[j].1
        },
        r is Ok <==> (tags_in_range(pairs@) && tags_distinct(pairs@) && tags_cover(pairs@)),
{
    let ghost input_seq = pairs@;
    let n = pairs.len();
    let mut slots: Vec<Option<T>> = Vec::new();
    let mut i: usize = 0;
    while i < n
        invariant
            slots@.len() == i <= n,
            forall|s: int| 0 <= s < i ==> slots@[s] is None,
        decreases n - i,
    {
        slots.push(None);
        i += 1;
    }
    let mut rest = pairs;
    let mut j: usize = 0;
    while j < n
        invariant
            n == input_seq.len(),
            rest@ == input_seq.subrange(j as int, n as int),
            slots@.len() == n,
            j <= n,
            forall|t: int|
                0 <= t < j ==> (#[trigger] input_seq[t]).0 < n && slots@[input_seq[t].0 as int]
                    == Some(input_seq[t].1),
            forall|s: int|
                0 <= s < n ==> ((#[trigger] slots@[s]) is Some <==> exists|t: int|
                    0 <= t < j && (#[trigger] input_seq[t]).0 == s),
            forall|t: int, u: int|
                0 <= t < u < j ==> (#[trigger] input_seq[t]).0 != (#[trigger] input_seq[u]).0,
        decreases n - j,
    {
        let pair = rest.remove(0);
        proof {
            assert(pair == input_seq[j as int]);
        }
        let idx = pair.0;
        if idx >= n {
            proof {
                assert(0 <= j < input_seq.len() && input_seq[j as int].0 >= input_seq.len());
                assert(!tags_in_range(input_seq));
            }
            return Err(Error::of("task index out of range"));
        }
        if slots[idx].is_some() {
            proof {
                let t = choose|t: int| 0 <= t < j && (#[trigger] input_seq[t]).0 == idx as int;
                assert(input_seq[t].0 == input_seq[j as int].0 && 0 <= t < j < input_seq.len());
                assert(!tags_distinct(input_seq));
            }
            return Err(Error::of("duplicate task index"));
        }
        slots[idx] = Some(pair.1);
        j += 1;
    }
    let ghost filled = slots@;
    let mut out: Vec<T> = Vec::new();
    let mut k: usize = 0;
    while k < n
        invariant
            n == input_seq.len(),
            filled.len() == n,
            out@.len() == k <= n,
            slots@ == filled.subrange(k as int, n as int),
            forall|s: int|
                0 <= s < n ==> ((#[trigger] filled[s]) is Some <==> exists|t: int|
                    0 <= t < n && (#[trigger] input_seq[t]).0 == s),
            forall|t: int|
                0 <= t < n ==> (#[trigger] input_seq[t]).0 < n && filled[input_seq[t].0 as int]
                    == Some(input_seq[t].1),
            forall|t: int, u: int|
                0 <= t < u < n ==> (#[trigger] input_seq[t]).0 != (#[trigger] input_seq[u]).0,
            forall|s: int| 0 <= s < k ==> filled[s] == Some(out@[s]),
        decreases n - k,
    {
        let head = slots.remove(0);
        proof {
            assert(head == filled[k as int]);
        }
        match head {
            Some(v) => {
                out.push(v);
            },
            None => {
                proof {
                    assert(!slot_covered(input_seq, k as int));
                    assert(!tags_cover(input_seq));
                }
                return Err(Error::of("missing task index"));
            },
        }
        k += 1;
    }
    proof {
        assert forall|s: int| 0 <= s < input_seq.len() implies #[trigger] slot_covered(
            input_seq,
            s,
        ) by {
            assert(filled[s] == Some(out@[s]));
        }
        assert forall|j2: int| 0 <= j2 < input_seq.len() implies out@[(#[trigger] input_seq[j2]).0
            as int] == input_seq[j2].1 by {
            assert(filled[input_seq[j2].0 as int] == Some(input_seq[j2].1));
        }
    }
    Ok(out)
}

} // verus!
