use vstd::prelude::*;

use crate::types::Update;

verus! {

// --- course display names ---

/// The display name recorded for a course, if any; the last entry wins, as
/// in a map built by inserting each entry in turn.
pub open spec fn spec_lookup(names: Seq<(u32, String)>, id: u32) -> Option<Seq<char>>
    decreases names.len(),
{
    if names.len() == 0 {
        None
    } else if names.last().0 == id {
        Some(names.last().1@)
    } else {
        spec_lookup(names.drop_last(), id)
    }
}

proof fn lemma_lookup_at(names: Seq<(u32, String)>, id: u32, i: int)
    requires
        0 <= i < names.len(),
        names[i].0 == id,
        forall|k: int| i < k < names.len() ==> (#[trigger] names[k]).0 != id,
    ensures
        spec_lookup(names, id) == Some(names[i].1@),
    decreases names.len(),
{
    if i == names.len() - 1 {
    } else {
        assert(names.last().0 != id);
        assert(names.drop_last()[i] == names[i]);
        lemma_lookup_at(names.drop_last(), id, i);
    }
}

proof fn lemma_lookup_none(names: Seq<(u32, String)>, id: u32)
    requires
        forall|k: int| 0 <= k < names.len() ==> (#[trigger] names[k]).0 != id,
    ensures
        spec_lookup(names, id) is None,
    decreases names.len(),
{
    if names.len() > 0 {
        lemma_lookup_none(names.drop_last(), id);
    }
}

/// Find a course's display name in the gathered name list.
pub fn lookup_name<'a>(names: &'a Vec<(u32, String)>, id: u32) -> (r: Option<&'a String>)
    ensures
        match r {
            Some(s) => spec_lookup(names@, id) == Some(s@),
            None => spec_lookup(names@, id) is None,
        },
{
    let n = names.len();
    let mut best: Option<usize> = None;
    let mut i: usize = 0;
    #[verifier::loop_isolation(false)]
    while i < n
        invariant
            i <= n == names@.len(),
            match best {
                Some(b) => b < i && names@[b as int].0 == id && forall|k: int|
                    b < k < i ==> (#[trigger] names@[k]).0 != id,
                None => forall|k: int| 0 <= k < i ==> (#[trigger] names@[k]).0 != id,
            },
        decreases n - i,
    {
        if names[i].0 == id {
            best = Some(i);
        }
        i += 1;
    }
    match best {
        Some(b) => {
            proof {
                lemma_lookup_at(names@, id, b as int);
            }
            Some(&names[b].1)
        },
        None => {
            proof {
                lemma_lookup_none(names@, id);
            }
            None
        },
    }
}

// --- the order that the report sorts by ---

/// Whether one string comes at or before another in character order.
pub open spec fn lex_le(a: Seq<char>, b: Seq<char>) -> bool
    decreases a.len(),
{
    if a.len() == 0 {
        true
    } else if b.len() == 0 {
        false
    } else if a.first() < b.first() {
        true
    } else if b.first() < a.first() {
        false
    } else {
        lex_le(a.drop_first(), b.drop_first())
    }
}

/// Whether one sort key comes at or before another: a course without a
/// recorded name sorts before every named one, names sort in character
/// order.
pub open spec fn key_le(a: Option<Seq<char>>, b: Option<Seq<char>>) -> bool {
    match (a, b) {
        (None, _) => true,
        (Some(x), None) => false,
        (Some(x), Some(y)) => lex_le(x, y),
    }
}

/// The key one record sorts by: its course's display name.
pub open spec fn update_key(names: Seq<(u32, String)>, u: Update) -> Option<Seq<char>> {
    spec_lookup(names, u.course_id)
}

proof fn lemma_lex_refl(a: Seq<char>)
    ensures
        lex_le(a, a),
    decreases a.len(),
{
    if a.len() > 0 {
        lemma_lex_refl(a.drop_first());
    }
}

proof fn lemma_lex_total(a: Seq<char>, b: Seq<char>)
    ensures
        lex_le(a, b) || lex_le(b, a),
    decreases a.len(),
{
    if a.len() > 0 && b.len() > 0 && a.first() == b.first() {
        lemma_lex_total(a.drop_first(), b.drop_first());
    }
}

proof fn lemma_lex_trans(a: Seq<char>, b: Seq<char>, c: Seq<char>)
    requires
        lex_le(a, b),
        lex_le(b, c),
    ensures
        lex_le(a, c),
    decreases a.len(),
{
    if a.len() > 0 && b.len() > 0 && c.len() > 0 && a.first() == b.first() && b.first()
        == c.first() {
        lemma_lex_trans(a.drop_first(), b.drop_first(), c.drop_first());
    }
}

proof fn lemma_key_refl(a: Option<Seq<char>>)
    ensures
        key_le(a, a),
{
    match a {
        Some(x) => lemma_lex_refl(x),
        None => {},
    }
}

proof fn lemma_key_total(a: Option<Seq<char>>, b: Option<Seq<char>>)
    ensures
        key_le(a, b) || key_le(b, a),
{
    match (a, b) {
        (Some(x), Some(y)) => lemma_lex_total(x, y),
        _ => {},
    }
}

proof fn lemma_key_trans(a: Option<Seq<char>>, b: Option<Seq<char>>, c: Option<Seq<char>>)
    requires
        key_le(a, b),
        key_le(b, c),
    ensures
        key_le(a, c),
{
    match (a, b, c) {
        (Some(x), Some(y), Some(z)) => lemma_lex_trans(x, y, z),
        _ => {},
    }
}

proof fn lemma_lex_skip(a: Seq<char>, b: Seq<char>, i: int)
    requires
        0 <= i <= a.len(),
        i <= b.len(),
        forall|k: int| 0 <= k < i ==> a[k] == b[k],
    ensures
        lex_le(a, b) == lex_le(a.skip(i), b.skip(i)),
    decreases i,
{
    if i == 0 {
        assert(a.skip(0) =~= a);
        assert(b.skip(0) =~= b);
    } else {
        assert(a.len() > 0 && b.len() > 0 && a.first() == b.first());
        assert(a.drop_first().skip(i - 1) =~= a.skip(i));
        assert(b.drop_first().skip(i - 1) =~= b.skip(i));
        assert forall|k: int| 0 <= k < i - 1 implies a.drop_first()[k] == b.drop_first()[k] by {
            assert(a.drop_first()[k] == a[k + 1] && b.drop_first()[k] == b[k + 1]);
        }
        lemma_lex_skip(a.drop_first(), b.drop_first(), i - 1);
    }
}

/// Whether one string comes at or before another in character order.
fn lex_le_exec(a: &str, b: &str) -> (r: bool)
    ensures
        r == lex_le(a@, b@),
{
    let an = a.unicode_len();
    let bn = b.unicode_len();
    let mut i: usize = 0;
    #[verifier::loop_isolation(false)]
    while i < an && i < bn
        invariant
            i <= an == a@.len(),
            i <= bn == b@.len(),
            forall|k: int| 0 <= k < i ==> a@[k] == b@[k],
        decreases an - i,
    {
        let ca = a.get_char(i);
        let cb = b.get_char(i);
        if ca != cb {
            proof {
                lemma_lex_skip(a@, b@, i as int);
                assert(a@.skip(i as int).first() == ca && b@.skip(i as int).first() == cb);
            }
            return (ca as u32) < (cb as u32);
        }
        i += 1;
    }
    proof {
        lemma_lex_skip(a@, b@, i as int);
        if i == an {
            assert(a@.skip(i as int).len() == 0);
        } else {
            assert(b@.skip(i as int).len() == 0 && a@.skip(i as int).len() > 0);
        }
    }
    an <= bn
}

/// Whether one sort key comes at or before another.
fn key_le_exec(a: Option<&String>, b: Option<&String>) -> (r: bool)
    ensures
        r == key_le(
            match a {
                Some(x) => Some(x@),
                None => None,
            },
            match b {
                Some(y) => Some(y@),
                None => None,
            },
        ),
{
    match (a, b) {
        (None, _) => true,
        (Some(_), None) => false,
        (Some(x), Some(y)) => lex_le_exec(x.as_str(), y.as_str()),
    }
}

// --- the stable sort itself ---

/// The subsequence of records whose course sorts under one key, in their own
/// order.
pub open spec fn filter_by_key(
    names: Seq<(u32, String)>,
    s: Seq<Update>,
    k: Option<Seq<char>>,
) -> Seq<Update>
    decreases s.len(),
{
    if s.len() == 0 {
        Seq::<Update>::empty()
    } else {
        let rest = filter_by_key(names, s.drop_last(), k);
        if update_key(names, s.last()) == k {
            rest.push(s.last())
        } else {
            rest
        }
    }
}

proof fn lemma_fbk_add(
    names: Seq<(u32, String)>,
    a: Seq<Update>,
    b: Seq<Update>,
    k: Option<Seq<char>>,
)
    ensures
        filter_by_key(names, a + b, k) == filter_by_key(names, a, k) + filter_by_key(names, b, k),
    decreases b.len(),
{
    if b.len() == 0 {
        assert(a + b =~= a);
        assert(filter_by_key(names, a, k) + filter_by_key(names, b, k) =~= filter_by_key(
            names,
            a,
            k,
        ));
    } else {
        assert((a + b).drop_last() =~= a + b.drop_last());
        assert((a + b).last() == b.last());
        lemma_fbk_add(names, a, b.drop_last(), k);
        if update_key(names, b.last()) == k {
            assert(filter_by_key(names, a, k) + filter_by_key(names, b.drop_last(), k).push(
                b.last(),
            ) =~= (filter_by_key(names, a, k) + filter_by_key(names, b.drop_last(), k)).push(
                b.last(),
            ));
        }
    }
}

proof fn lemma_fbk_none_match(
    names: Seq<(u32, String)>,
    s: Seq<Update>,
    k: Option<Seq<char>>,
)
    requires
        forall|i: int| 0 <= i < s.len() ==> update_key(names, #[trigger] s[i]) != k,
    ensures
        filter_by_key(names, s, k) == Seq::<Update>::empty(),
    decreases s.len(),
{
    if s.len() > 0 {
        lemma_fbk_none_match(names, s.drop_last(), k);
    }
}

/// Whether a record list is ordered by its courses' display names.
pub open spec fn sorted_by_key(names: Seq<(u32, String)>, s: Seq<Update>) -> bool {
    forall|i: int, j: int|
        0 <= i < j < s.len() ==> key_le(
            update_key(names, #[trigger] s[i]),
            update_key(names, #[trigger] s[j]),
        )
}

/// Order records by their course's display name: courses without a recorded
/// name come first, named courses follow in name order, and records that
/// sort under the same key keep the order they were emitted in.
pub fn sort_updates(updates: Vec<Update>, names: &Vec<(u32, String)>) -> (r: Vec<Update>)
    ensures
        r@.len() == updates@.len(),
        sorted_by_key(names@, r@),
        forall|k: Option<Seq<char>>| #[trigger]
            filter_by_key(names@, r@, k) == filter_by_key(names@, updates@, k),
{
    let ghost input_seq = updates@;
    let n = updates.len();
    let mut rest = updates;
    let mut out: Vec<Update> = Vec::new();
    let mut i: usize = 0;
    proof {
        assert forall|k: Option<Seq<char>>| #[trigger]
            filter_by_key(names@, out@, k) == filter_by_key(
            names@,
            input_seq.take(0),
            k,
        ) by {
            assert(out@ =~= input_seq.take(0));
        }
    }
    #[verifier::loop_isolation(false)]
    while i < n
        invariant
            i <= n == input_seq.len(),
            rest@ == input_seq.subrange(i as int, n as int),
            out@.len() == i,
            sorted_by_key(names@, out@),
            forall|k: Option<Seq<char>>| #[trigger]
                filter_by_key(names@, out@, k) == filter_by_key(names@, input_seq.take(i as int), k),
        decreases n - i,
    {
        let u = rest.remove(0);
        proof {
            assert(u == input_seq[i as int]);
            assert(input_seq.take(i + 1).drop_last() =~= input_seq.take(i as int));
            assert(input_seq.take(i + 1).last() == input_seq[i as int]);
        }
        let ku = lookup_name(names, u.course_id);
        let ghost ku_spec = update_key(names@, u);
        proof {
            match ku {
                Some(s) => assert(ku_spec == Some(s@)),
                None => assert(ku_spec is None),
            }
        }
        // find the first slot whose key comes strictly after the new record's
        let m = out.len();
        let mut p: usize = 0;
        #[verifier::loop_isolation(false)]
        while p < m
            invariant
                p <= m == out@.len(),
                forall|q: int|
                    0 <= q < p ==> key_le(update_key(names@, #[trigger] out@[q]), ku_spec),
            decreases m - p,
        {
            let kq = lookup_name(names, out[p].course_id);
            if !key_le_exec(kq, ku.clone()) {
                break;
            }
            proof {
                match kq {
                    Some(s) => assert(update_key(names@, out@[p as int]) == Some(s@)),
                    None => assert(update_key(names@, out@[p as int]) is None),
                }
            }
            p += 1;
        }
        proof {
            if p < m {
                assert(!key_le(update_key(names@, out@[p as int]), ku_spec));
            }
            // every record at or after the slot sorts strictly after the new one
            assert forall|q: int| p <= q < m implies !key_le(
                update_key(names@, #[trigger] out@[q]),
                ku_spec,
            ) by {
                if q > p {
                    assert(key_le(
                        update_key(names@, out@[p as int]),
                        update_key(names@, out@[q]),
                    ));
                    if key_le(update_key(names@, out@[q]), ku_spec) {
                        lemma_key_trans(
                            update_key(names@, out@[p as int]),
                            update_key(names@, out@[q]),
                            ku_spec,
                        );
                    }
                }
            }
        }
        let ghost before = out@;
        out.insert(p, u);
        proof {
            assert(out@ =~= before.take(p as int) + seq![u] + before.skip(p as int));
            let a = before.take(p as int);
            let b = before.skip(p as int);
            // the new list stays sorted
            assert forall|x: int, y: int| 0 <= x < y < out@.len() implies key_le(
                update_key(names@, #[trigger] out@[x]),
                update_key(names@, #[trigger] out@[y]),
            ) by {
                let kx = update_key(names@, out@[x]);
                let ky = update_key(names@, out@[y]);
                if x < p && y < p {
                    assert(out@[x] == before[x] && out@[y] == before[y]);
                } else if x < p && y == p {
                    assert(out@[x] == before[x]);
                } else if x < p && y > p {
                    assert(out@[x] == before[x] && out@[y] == before[y - 1]);
                } else if x == p && y > p {
                    assert(out@[y] == before[y - 1]);
                    assert(!key_le(update_key(names@, before[y - 1]), ku_spec));
                    lemma_key_total(ku_spec, update_key(names@, before[y - 1]));
                } else if x > p && y > p {
                    assert(out@[x] == before[x - 1] && out@[y] == before[y - 1]);
                }
            }
            // and its per-key subsequences grow exactly by the new record
            assert forall|k: Option<Seq<char>>| #[trigger]
                filter_by_key(names@, out@, k) == filter_by_key(
                names@,
                input_seq.take(i + 1),
                k,
            ) by {
                lemma_fbk_add(names@, a + seq![u], b, k);
                lemma_fbk_add(names@, a, seq![u], k);
                lemma_fbk_add(names@, a, b, k);
                assert(a + b =~= before);
                assert(filter_by_key(names@, seq![u], k) == if ku_spec == k {
                    seq![u]
                } else {
                    Seq::<Update>::empty()
                }) by {
                    assert(filter_by_key(names@, Seq::<Update>::empty(), k) == Seq::<
                        Update,
                    >::empty());
                    assert(seq![u].drop_last() =~= Seq::<Update>::empty());
                    assert(seq![u].last() == u);
                    assert(filter_by_key(names@, seq![u].drop_last(), k) == Seq::<
                        Update,
                    >::empty());
                }
                if k == ku_spec {
                    assert forall|q: int| 0 <= q < b.len() implies update_key(
                        names@,
                        #[trigger] b[q],
                    ) != k by {
                        assert(b[q] == before[p + q]);
                        assert(!key_le(update_key(names@, before[p + q]), ku_spec));
                        lemma_key_refl(update_key(names@, before[p + q]));
                    }
                    lemma_fbk_none_match(names@, b, k);
                    assert(filter_by_key(names@, out@, k) =~= filter_by_key(names@, before, k)
                        + seq![u]);
                    assert(filter_by_key(names@, input_seq.take(i + 1), k) =~= filter_by_key(
                        names@,
                        input_seq.take(i as int),
                        k,
                    ) + seq![u]);
                } else {
                    assert(filter_by_key(names@, out@, k) =~= filter_by_key(names@, before, k));
                }
            }
        }
        i += 1;
    }
    proof {
        assert(input_seq.take(n as int) =~= input_seq);
    }
    out
}

// --- rendering ---

/// The ghost shape of one line of the rendered summary.
pub ghost enum SummaryLineView {
    UpToDate,
    CourseHeader(Seq<char>),
    UnknownCourse(u32),
    Entry(Seq<char>),
}

/// One line of the rendered summary: the everything-in-order notice, a
/// course's header, the header of a course whose name could not be fetched,
/// or one record's display path.
pub enum SummaryLine {
    UpToDate,
    CourseHeader(String),
    UnknownCourse(u32),
    Entry(String),
}

impl View for SummaryLine {
    type V = SummaryLineView;

    open spec fn view(&self) -> SummaryLineView {
        match self {
            SummaryLine::UpToDate => SummaryLineView::UpToDate,
            SummaryLine::CourseHeader(s) => SummaryLineView::CourseHeader(s@),
            SummaryLine::UnknownCourse(id) => SummaryLineView::UnknownCourse(*id),
            SummaryLine::Entry(s) => SummaryLineView::Entry(s@),
        }
    }
}

/// The lines that the records from one position on contribute: a record
/// under a new course opens a header first, every record lists its display
/// path.
pub open spec fn render_from(
    names: Seq<(u32, String)>,
    s: Seq<Update>,
    i: int,
    prev: Option<u32>,
) -> Seq<SummaryLineView>
    decreases s.len() - i,
{
    if i < 0 || i >= s.len() {
        Seq::<SummaryLineView>::empty()
    } else {
        let u = s[i];
        let header: Seq<SummaryLineView> = if prev == Some(u.course_id) {
            Seq::<SummaryLineView>::empty()
        } else {
            match spec_lookup(names, u.course_id) {
                Some(nm) => seq![SummaryLineView::CourseHeader(nm)],
                None => seq![SummaryLineView::UnknownCourse(u.course_id)],
            }
        };
        header + seq![SummaryLineView::Entry(u.remote_path@)] + render_from(
            names,
            s,
            i + 1,
            Some(u.course_id),
        )
    }
}

/// The whole rendered summary: the everything-in-order notice when nothing
/// was found, else every record's display path under its course's header.
pub open spec fn rendered(names: Seq<(u32, String)>, s: Seq<Update>) -> Seq<SummaryLineView> {
    if s.len() == 0 {
        seq![SummaryLineView::UpToDate]
    } else {
        render_from(names, s, 0, None)
    }
}

/// Render sorted records into summary lines: consecutive records of one
/// course gather under a single header, a course whose name is not recorded
/// gets a header naming its number, and an empty record list renders as the
/// everything-in-order notice.
pub fn render_summary(updates: &Vec<Update>, names: &Vec<(u32, String)>) -> (r: Vec<SummaryLine>)
    ensures
        r@.map_values(|l: SummaryLine| l@) == rendered(names@, updates@),
{
    let n = updates.len();
    if n == 0 {
        let mut out: Vec<SummaryLine> = Vec::new();
        out.push(SummaryLine::UpToDate);
        proof {
            assert(out@.map_values(|l: SummaryLine| l@) =~= rendered(names@, updates@));
        }
        return out;
    }
    let mut out: Vec<SummaryLine> = Vec::new();
    let mut prev: Option<u32> = None;
    let mut i: usize = 0;
    #[verifier::loop_isolation(false)]
    while i < n
        invariant
            i <= n == updates@.len(),
            out@.map_values(|l: SummaryLine| l@) + render_from(names@, updates@, i as int, prev)
                =~= render_from(names@, updates@, 0, None),
        decreases n - i,
    {
        let ghost lines_before = out@.map_values(|l: SummaryLine| l@);
        let ghost prev_before = prev;
        let u = &updates[i];
        let new_course = match prev {
            Some(p) => p != u.course_id,
            None => true,
        };
        if new_course {
            match lookup_name(names, u.course_id) {
                Some(nm) => {
                    out.push(SummaryLine::CourseHeader(nm.clone()));
                },
                None => {
                    out.push(SummaryLine::UnknownCourse(u.course_id));
                },
            }
        }
        out.push(SummaryLine::Entry(u.remote_path.clone()));
        prev = Some(u.course_id);
        proof {
            let header: Seq<SummaryLineView> = if prev_before == Some(u.course_id) {
                Seq::<SummaryLineView>::empty()
            } else {
                match spec_lookup(names@, u.course_id) {
                    Some(nm) => seq![SummaryLineView::CourseHeader(nm)],
                    None => seq![SummaryLineView::UnknownCourse(u.course_id)],
                }
            };
            assert(out@.map_values(|l: SummaryLine| l@) =~= lines_before + header + seq![
                SummaryLineView::Entry(u.remote_path@),
            ]);
            assert(render_from(names@, updates@, i as int, prev_before) == header + seq![
                SummaryLineView::Entry(u.remote_path@),
            ] + render_from(names@, updates@, i + 1, Some(u.course_id)));
            assert(out@.map_values(|l: SummaryLine| l@) + render_from(
                names@,
                updates@,
                i + 1,
                Some(u.course_id),
            ) =~= lines_before + render_from(names@, updates@, i as int, prev_before));
        }
        i += 1;
    }
    proof {
        assert(render_from(names@, updates@, n as int, prev) =~= Seq::<SummaryLineView>::empty());
        assert(out@.map_values(|l: SummaryLine| l@) =~= rendered(names@, updates@));
    }
    out
}

} // verus!
