//! The diff splitter: turns one multi-file diff text into an ordered
//! sequence of patch records, one per file section.
//!
//! Line policy: the text is split at `'\n'`; a line terminated by
//! `"\r\n"` loses the `'\r'`; a final line without a terminator is kept
//! verbatim (a trailing lone `'\r'` included); a trailing `'\n'` does
//! not open an empty final line. Record contents are rejoined with a
//! single `'\n'` between lines and no terminator after the last line.

use vstd::prelude::*;

use crate::patch::PatchFile;
use crate::patch::SplitError;

verus! {

// ---------------------------------------------------------------------
// Lines: the model of how the input text decomposes into lines.
// ---------------------------------------------------------------------

/// Index of the first occurrence of `c` in `s`, or -1 if absent.
pub open spec fn first_of(s: Seq<char>, c: char) -> int
    decreases s.len(),
{
    if s.len() == 0 {
        -1
    } else if s[0] == c {
        0
    } else if first_of(s.drop_first(), c) < 0 {
        -1
    } else {
        first_of(s.drop_first(), c) + 1
    }
}

/// Drops a trailing carriage return, if one is present.
pub open spec fn chomp_cr(l: Seq<char>) -> Seq<char> {
    if l.len() > 0 && l.last() == '\r' {
        l.drop_last()
    } else {
        l
    }
}

/// The lines of `rest`, given that `cur` holds the (unterminated) line
/// characters already consumed.
pub open spec fn lines_acc(rest: Seq<char>, cur: Seq<char>) -> Seq<Seq<char>>
    decreases rest.len(),
{
    if rest.len() == 0 {
        if cur.len() == 0 {
            seq![]
        } else {
            seq![cur]
        }
    } else if rest[0] == '\n' {
        seq![chomp_cr(cur)] + lines_acc(rest.drop_first(), seq![])
    } else {
        lines_acc(rest.drop_first(), cur.push(rest[0]))
    }
}

/// The lines of a text, under this module's line policy.
pub open spec fn lines_of(s: Seq<char>) -> Seq<Seq<char>> {
    lines_acc(s, seq![])
}

/// Lines rejoined with a single `'\n'` between them.
pub open spec fn join_lines(ls: Seq<Seq<char>>) -> Seq<char>
    decreases ls.len(),
{
    if ls.len() == 0 {
        seq![]
    } else if ls.len() == 1 {
        ls[0]
    } else {
        join_lines(ls.drop_last()) + seq!['\n'] + ls.last()
    }
}

/// The views of a sequence of borrowed line slices.
pub open spec fn views_of(ls: Seq<&str>) -> Seq<Seq<char>> {
    ls.map_values(|l: &str| l@)
}

// ---------------------------------------------------------------------
// Marker lines and name normalization.
// ---------------------------------------------------------------------

/// A line that opens a new file section (once a prior section's header
/// has been seen).
pub open spec fn is_boundary_line(l: Seq<char>) -> bool {
    l.len() >= 5 && l.take(5) == "diff "@
}

/// A line declaring the pre-change file identity.
pub open spec fn is_old_marker(l: Seq<char>) -> bool {
    l.len() >= 4 && l.take(4) == "--- "@
}

/// A line declaring the post-change file identity.
pub open spec fn is_new_marker(l: Seq<char>) -> bool {
    l.len() >= 4 && l.take(4) == "+++ "@
}

pub open spec fn is_marker(l: Seq<char>) -> bool {
    is_old_marker(l) || is_new_marker(l)
}

/// Strips the leading `"a/"` or `"b/"` tree prefix, if present.
pub open spec fn strip_tree_prefix(s: Seq<char>) -> Seq<char> {
    if s.len() >= 2 && (s.take(2) == "a/"@ || s.take(2) == "b/"@) {
        s.skip(2)
    } else {
        s
    }
}

/// Truncates at the first tab, which some tools use to append a
/// timestamp after the path.
pub open spec fn truncate_at_tab(s: Seq<char>) -> Seq<char> {
    if first_of(s, '\t') >= 0 {
        s.take(first_of(s, '\t'))
    } else {
        s
    }
}

/// Normalization applied to the remainder of a marker line to obtain a
/// file identity.
pub open spec fn norm_name(s: Seq<char>) -> Seq<char> {
    truncate_at_tab(strip_tree_prefix(s))
}

// ---------------------------------------------------------------------
// The splitter state machine over lines.
// ---------------------------------------------------------------------

/// A patch record at the model level: the two identities and the
/// section's lines.
pub ghost struct SRec {
    pub old: Seq<char>,
    pub new: Seq<char>,
    pub lines: Seq<Seq<char>>,
}

/// The splitter's accumulation state: finished records, the lines of
/// the section being assembled, and the pending identities.
pub ghost struct SState {
    pub recs: Seq<SRec>,
    pub acc: Seq<Seq<char>>,
    pub old_name: Seq<char>,
    pub new_name: Seq<char>,
}

pub open spec fn init_state() -> SState {
    SState { recs: seq![], acc: seq![], old_name: seq![], new_name: seq![] }
}

/// One line of input advances the state: a boundary line with a pending
/// old identity flushes the section; marker lines set the pending
/// identities; every line joins the current section's accumulator.
pub open spec fn step(st: SState, line: Seq<char>) -> SState {
    if is_boundary_line(line) && st.old_name.len() > 0 {
        SState {
            recs: st.recs.push(SRec { old: st.old_name, new: st.new_name, lines: st.acc }),
            acc: seq![line],
            old_name: seq![],
            new_name: seq![],
        }
    } else if is_old_marker(line) {
        SState {
            recs: st.recs,
            acc: st.acc.push(line),
            old_name: norm_name(line.skip(4)),
            new_name: st.new_name,
        }
    } else if is_new_marker(line) {
        SState {
            recs: st.recs,
            acc: st.acc.push(line),
            old_name: st.old_name,
            new_name: norm_name(line.skip(4)),
        }
    } else {
        SState {
            recs: st.recs,
            acc: st.acc.push(line),
            old_name: st.old_name,
            new_name: st.new_name,
        }
    }
}

pub open spec fn run_from(st: SState, ls: Seq<Seq<char>>) -> SState
    decreases ls.len(),
{
    if ls.len() == 0 {
        st
    } else {
        step(run_from(st, ls.drop_last()), ls.last())
    }
}

pub open spec fn run(ls: Seq<Seq<char>>) -> SState {
    run_from(init_state(), ls)
}

/// The final flush: fails when no usable identities are pending, else
/// closes the last section.
pub open spec fn final_flush(st: SState) -> Option<Seq<SRec>> {
    if st.old_name.len() == 0 || st.new_name.len() == 0 {
        None
    } else {
        Some(st.recs.push(SRec { old: st.old_name, new: st.new_name, lines: st.acc }))
    }
}

/// What splitting a given sequence of lines must produce.
pub open spec fn split_records(ls: Seq<Seq<char>>) -> Option<Seq<SRec>> {
    final_flush(run(ls))
}

/// What splitting a given text must produce.
pub open spec fn split_spec(text: Seq<char>) -> Option<Seq<SRec>> {
    split_records(lines_of(text))
}

/// An executable record realizes a model record when the identities
/// agree and the contents are that section's lines rejoined.
pub open spec fn matches_rec(pf: PatchFile, r: SRec) -> bool {
    pf.old@ == r.old && pf.new@ == r.new && pf.contents@ == join_lines(r.lines)
}

pub open spec fn matches_recs(pfs: Seq<PatchFile>, rs: Seq<SRec>) -> bool {
    pfs.len() == rs.len() && (forall|i: int| 0 <= i < rs.len() ==> matches_rec(pfs[i], rs[i]))
}

// ---------------------------------------------------------------------
// Executable helpers.
// ---------------------------------------------------------------------

/// Whether `s` starts with the prefix `p`, character for character.
fn str_has_prefix(s: &str, p: &str) -> (b: bool)
    ensures
        b == (s@.len() >= p@.len() && s@.take(p@.len() as int) == p@),
{
    let n: usize = p.unicode_len();
    if s.unicode_len() < n {
        return false;
    }
    let mut i: usize = 0;
    while i < n
        invariant
            i <= n,
            n == p@.len(),
            s@.len() >= n,
            forall|k: int| 0 <= k < i ==> s@[k] == p@[k],
        decreases n - i,
    {
        if s.get_char(i) != p.get_char(i) {
            assert(s@.take(p@.len() as int)[i as int] != p@[i as int]);
            return false;
        }
        i = i + 1;
    }
    proof {
        assert(s@.take(p@.len() as int) =~= p@);
    }
    true
}

/// Index of the first occurrence of `c` in `s`, if any.
fn find_char(s: &str, c: char) -> (r: Option<usize>)
    ensures
        match r {
            Some(i) => i < s@.len() && first_of(s@, c) == i as int,
            None => first_of(s@, c) < 0,
        },
{
    let n: usize = s.unicode_len();
    let mut i: usize = 0;
    while i < n
        invariant
            i <= n,
            n == s@.len(),
            forall|k: int| 0 <= k < i ==> s@[k] != c,
        decreases n - i,
    {
        if s.get_char(i) == c {
            proof {
                lemma_first_of_is(s@, c, i as int);
            }
            return Some(i);
        }
        i = i + 1;
    }
    proof {
        lemma_first_of_none(s@, c);
    }
    None
}

proof fn lemma_first_of_is(s: Seq<char>, c: char, i: int)
    requires
        0 <= i < s.len(),
        s[i] == c,
        forall|k: int| 0 <= k < i ==> s[k] != c,
    ensures
        first_of(s, c) == i,
    decreases s.len(),
{
    if i > 0 {
        lemma_first_of_is(s.drop_first(), c, i - 1);
    }
}

proof fn lemma_first_of_none(s: Seq<char>, c: char)
    requires
        forall|k: int| 0 <= k < s.len() ==> s[k] != c,
    ensures
        first_of(s, c) < 0,
    decreases s.len(),
{
    if s.len() > 0 {
        lemma_first_of_none(s.drop_first(), c);
    }
}

/// Splits a text into its lines, per this module's line policy.
fn split_lines(s: &str) -> (r: Vec<&str>)
    ensures
        views_of(r@) == lines_of(s@),
{
    let n: usize = s.unicode_len();
    let mut res: Vec<&str> = Vec::new();
    let mut start: usize = 0;
    let mut i: usize = 0;
    proof {
        assert(views_of(res@) =~= Seq::<Seq<char>>::empty());
        assert(s@.skip(0) =~= s@);
        assert(s@.subrange(0, 0) =~= Seq::<char>::empty());
    }
    while i < n
        invariant
            start <= i <= n,
            n == s@.len(),
            views_of(res@) + lines_acc(s@.skip(i as int), s@.subrange(start as int, i as int))
                =~= lines_of(s@),
        decreases n - i,
    {
        let ghost rest = s@.skip(i as int);
        let ghost cur = s@.subrange(start as int, i as int);
        proof {
            assert(rest.len() > 0);
            assert(rest[0] == s@[i as int]);
            assert(rest.drop_first() =~= s@.skip(i as int + 1));
        }
        if s.get_char(i) == '\n' {
            let line: &str = if i > start && s.get_char(i - 1) == '\r' {
                s.substring_char(start, i - 1)
            } else {
                s.substring_char(start, i)
            };
            proof {
                assert(line@ =~= chomp_cr(cur));
            }
            res.push(line);
            proof {
                assert(views_of(res@) =~= views_of(res@.drop_last()).push(line@));
                assert(views_of(res@) + lines_acc(s@.skip(i as int + 1), Seq::<char>::empty())
                    =~= lines_of(s@));
                assert(s@.subrange(i as int + 1, i as int + 1) =~= Seq::<char>::empty());
            }
            start = i + 1;
        } else {
            proof {
                assert(cur.push(s@[i as int]) =~= s@.subrange(start as int, i as int + 1));
            }
        }
        i = i + 1;
    }
    proof {
        assert(s@.skip(n as int) =~= Seq::<char>::empty());
    }
    if start < n {
        let line: &str = s.substring_char(start, n);
        res.push(line);
        proof {
            assert(views_of(res@) =~= views_of(res@.drop_last()).push(line@));
            assert(views_of(res@) =~= lines_of(s@));
        }
    } else {
        proof {
            assert(s@.subrange(start as int, n as int).len() == 0);
            assert(views_of(res@) + lines_acc(Seq::<char>::empty(), s@.subrange(start as int, n as int))
                =~= views_of(res@));
        }
    }
    res
}

/// Normalizes the remainder of a `"--- "`/`"+++ "` marker line into a
/// file identity: strips a leading `"a/"` or `"b/"` tree prefix, then
/// truncates at the first tab.
pub fn fix_filename_in_diff(filename: String) -> (r: String)
    ensures
        r@ == norm_name(filename@),
{
    proof {
        reveal_strlit("a/");
        reveal_strlit("b/");
    }
    let s: &str = filename.as_str();
    let n: usize = s.unicode_len();
    let stripped: &str = if str_has_prefix(s, "a/") || str_has_prefix(s, "b/") {
        s.substring_char(2, n)
    } else {
        s
    };
    proof {
        assert(stripped@ =~= strip_tree_prefix(filename@));
    }
    let r: &str = match find_char(stripped, '\t') {
        Some(j) => stripped.substring_char(0, j),
        None => stripped,
    };
    proof {
        assert(r@ =~= norm_name(filename@));
    }
    String::from_str(r)
}

/// Rejoins a section's lines with a single `'\n'` between them.
fn join_with_newline(lines: &Vec<&str>) -> (r: String)
    ensures
        r@ == join_lines(views_of(lines@)),
{
    let ghost vs = views_of(lines@);
    let mut r = String::new();
    let mut i: usize = 0;
    while i < lines.len()
        invariant
            i <= lines.len(),
            vs == views_of(lines@),
            r@ == join_lines(vs.take(i as int)),
        decreases lines.len() - i,
    {
        if i > 0 {
            r.append("\n");
        }
        r.append(lines[i]);
        proof {
            reveal_strlit("\n");
            assert(vs.take(i as int + 1).drop_last() =~= vs.take(i as int));
            assert("\n"@ =~= seq!['\n']);
            if i == 0 {
                assert(join_lines(vs.take(1)) == vs[0]);
                assert(r@ =~= vs[0]);
            } else {
                assert(r@ == join_lines(vs.take(i as int)) + seq!['\n'] + vs[i as int]);
            }
        }
        i = i + 1;
    }
    proof {
        assert(vs.take(lines.len() as int) =~= vs);
    }
    r
}

/// Splits one diff text into an ordered sequence of patch records.
///
/// Each line is classified as the state machine `step` describes: a
/// `"diff "` line with a pending old identity closes the section in
/// hand; `"--- "` and `"+++ "` lines set the pending identities; every
/// line, markers included, joins the current section. Header text
/// before the first markers therefore stays inside the first record.
/// The parse fails with `MalformedInput` exactly when, at the end of
/// the text, one of the pending identities is still empty — in
/// particular whenever no marker line occurs anywhere — and then no
/// records at all are produced.
pub fn split_diff(diff: String) -> (r: Result<Vec<PatchFile>, SplitError>)
    ensures
        match r {
            Ok(recs) => split_spec(diff@) matches Some(m) && matches_recs(recs@, m),
            Err(e) => e == SplitError::MalformedInput && split_spec(diff@) is None,
        },
{
    proof {
        reveal_strlit("diff ");
        reveal_strlit("--- ");
        reveal_strlit("+++ ");
    }
    let s: &str = diff.as_str();
    let lines = split_lines(s);
    let ghost ls = lines_of(diff@);
    let mut recs: Vec<PatchFile> = Vec::new();
    let mut acc: Vec<&str> = Vec::new();
    let mut old_name = String::new();
    let mut new_name = String::new();
    let mut i: usize = 0;
    proof {
        assert(ls.take(0) =~= Seq::<Seq<char>>::empty());
        assert(views_of(acc@) =~= Seq::<Seq<char>>::empty());
    }
    while i < lines.len()
        invariant
            i <= lines.len(),
            views_of(lines@) == ls,
            matches_recs(recs@, run(ls.take(i as int)).recs),
            views_of(acc@) == run(ls.take(i as int)).acc,
            old_name@ == run(ls.take(i as int)).old_name,
            new_name@ == run(ls.take(i as int)).new_name,
        decreases lines.len() - i,
    {
        let ghost st = run(ls.take(i as int));
        let line: &str = lines[i];
        proof {
            reveal_strlit("diff ");
            reveal_strlit("--- ");
            reveal_strlit("+++ ");
            assert(line@ == ls[i as int]);
            assert(ls.take(i as int + 1).drop_last() =~= ls.take(i as int));
            assert(ls.take(i as int + 1).last() == ls[i as int]);
            assert(run(ls.take(i as int + 1)) == step(st, line@));
        }
        if str_has_prefix(line, "diff ") && !old_name.as_str().is_empty() {
            let contents = join_with_newline(&acc);
            let pf = PatchFile {
                old: old_name,
                new: new_name,
                contents,
            };
            recs.push(pf);
            acc.clear();
            old_name = String::new();
            new_name = String::new();
            acc.push(line);
            proof {
                let stp = step(st, line@);
                assert(recs@.last() == pf);
                assert(matches_rec(pf, stp.recs.last()));
                assert(matches_recs(recs@, stp.recs));
                assert(views_of(acc@) =~= seq![line@]);
            }
        } else if str_has_prefix(line, "--- ") {
            let m: usize = line.unicode_len();
            old_name = fix_filename_in_diff(String::from_str(line.substring_char(4, m)));
            acc.push(line);
            proof {
                assert(line@.subrange(4, m as int) =~= line@.skip(4));
                assert(views_of(acc@) =~= views_of(acc@.drop_last()).push(line@));
            }
        } else if str_has_prefix(line, "+++ ") {
            let m: usize = line.unicode_len();
            new_name = fix_filename_in_diff(String::from_str(line.substring_char(4, m)));
            acc.push(line);
            proof {
                assert(line@.subrange(4, m as int) =~= line@.skip(4));
                assert(views_of(acc@) =~= views_of(acc@.drop_last()).push(line@));
            }
        } else {
            acc.push(line);
            proof {
                assert(views_of(acc@) =~= views_of(acc@.drop_last()).push(line@));
            }
        }
        i = i + 1;
    }
    proof {
        assert(ls.take(lines.len() as int) =~= ls);
    }
    if old_name.as_str().is_empty() || new_name.as_str().is_empty() {
        return Err(SplitError::MalformedInput);
    }
    let contents = join_with_newline(&acc);
    let pf = PatchFile {
        old: old_name,
        new: new_name,
        contents,
    };
    recs.push(pf);
    proof {
        let m = split_spec(diff@)->Some_0;
        assert(recs@.last() == pf);
        assert(matches_rec(pf, m.last()));
        assert(matches_recs(recs@, m));
    }
    Ok(recs)
}

// ---------------------------------------------------------------------
// Laws.
// ---------------------------------------------------------------------

/// All the lines of a sequence of records, in order.
pub open spec fn rec_lines_flat(rs: Seq<SRec>) -> Seq<Seq<char>>
    decreases rs.len(),
{
    if rs.len() == 0 {
        seq![]
    } else {
        rec_lines_flat(rs.drop_last()) + rs.last().lines
    }
}

/// The running invariants of the splitter state machine: the finished
/// records and the open accumulator partition the lines consumed so
/// far; a pending identity certifies a marker line behind it; and the
/// first record's lines are a prefix of the input holding an old
/// marker.
proof fn lemma_run_invariants(ls: Seq<Seq<char>>)
    ensures
        rec_lines_flat(run(ls).recs) + run(ls).acc == ls,
        run(ls).recs.len() == 0 ==> run(ls).acc == ls,
        run(ls).old_name.len() > 0 ==> exists|k: int|
            0 <= k < ls.len() && is_old_marker(#[trigger] ls[k]),
        run(ls).new_name.len() > 0 ==> exists|k: int|
            0 <= k < ls.len() && is_new_marker(#[trigger] ls[k]),
        run(ls).recs.len() > 0 ==> run(ls).recs[0].lines.len() <= ls.len(),
        run(ls).recs.len() > 0 ==> run(ls).recs[0].lines == ls.take(
            run(ls).recs[0].lines.len() as int,
        ),
        run(ls).recs.len() > 0 ==> exists|k: int|
            0 <= k < run(ls).recs[0].lines.len() && is_old_marker(#[trigger] ls[k]),
        run(ls).old_name.len() > 0 ==> run(ls).acc.len() > 0,
        forall|j: int| 0 <= j < run(ls).recs.len() ==> #[trigger] run(ls).recs[j].lines.len() > 0,
    decreases ls.len(),
{
    if ls.len() == 0 {
        assert(rec_lines_flat(run(ls).recs) + run(ls).acc =~= ls);
    } else {
        let l0 = ls.drop_last();
        let x = ls.last();
        lemma_run_invariants(l0);
        let st0 = run(l0);
        let st = run(ls);
        assert(st == step(st0, x));
        assert(forall|k: int| 0 <= k < l0.len() ==> l0[k] == ls[k]);
        if is_boundary_line(x) && st0.old_name.len() > 0 {
            let r = SRec { old: st0.old_name, new: st0.new_name, lines: st0.acc };
            assert(st.recs.drop_last() =~= st0.recs);
            assert(rec_lines_flat(st.recs) == rec_lines_flat(st0.recs) + st0.acc);
            assert(rec_lines_flat(st.recs) + st.acc =~= ls);
            assert(forall|j: int|
                0 <= j < st.recs.len() ==> #[trigger] st.recs[j].lines.len() > 0) by {
                assert(forall|j: int| 0 <= j < st0.recs.len() ==> st.recs[j] == st0.recs[j]);
                assert(st.recs.last().lines.len() > 0);
            }
            if st0.recs.len() == 0 {
                assert(st.recs[0] == r);
                assert(r.lines == l0);
                assert(r.lines =~= ls.take(r.lines.len() as int));
                let k = choose|k: int| 0 <= k < l0.len() && is_old_marker(#[trigger] l0[k]);
                assert(is_old_marker(ls[k]));
            } else {
                assert(st.recs[0] == st0.recs[0]);
                let n = st0.recs[0].lines.len() as int;
                assert(st0.recs[0].lines == l0.take(n));
                assert(st0.recs[0].lines =~= ls.take(n));
                let k = choose|k: int|
                    0 <= k < st0.recs[0].lines.len() && is_old_marker(#[trigger] l0[k]);
                assert(is_old_marker(ls[k]));
            }
        } else {
            assert(st.recs == st0.recs);
            assert(st.acc == st0.acc.push(x));
            assert(rec_lines_flat(st.recs) + st.acc =~= ls);
            if st.recs.len() == 0 {
                assert(st.acc =~= ls);
            } else {
                let n = st0.recs[0].lines.len() as int;
                assert(st0.recs[0].lines == l0.take(n));
                assert(st0.recs[0].lines =~= ls.take(n));
                let k = choose|k: int|
                    0 <= k < st0.recs[0].lines.len() && is_old_marker(#[trigger] l0[k]);
                assert(is_old_marker(ls[k]));
            }
            if st.old_name.len() > 0 {
                if is_old_marker(x) && st.old_name == norm_name(x.skip(4)) {
                    assert(is_old_marker(ls[ls.len() - 1]));
                } else if st.old_name == st0.old_name && st0.old_name.len() > 0 {
                    let k = choose|k: int| 0 <= k < l0.len() && is_old_marker(#[trigger] l0[k]);
                    assert(is_old_marker(ls[k]));
                }
            }
            if st.new_name.len() > 0 {
                if is_new_marker(x) && st.new_name == norm_name(x.skip(4)) {
                    assert(is_new_marker(ls[ls.len() - 1]));
                } else if st.new_name == st0.new_name && st0.new_name.len() > 0 {
                    let k = choose|k: int| 0 <= k < l0.len() && is_new_marker(#[trigger] l0[k]);
                    assert(is_new_marker(ls[k]));
                }
            }
        }
    }
}

/// Law: on success, the records' lines partition the input's lines —
/// concatenating every record's lines, in order, gives back the input
/// line for line, nothing dropped and nothing reordered.
pub proof fn lemma_records_partition_input(text: Seq<char>)
    ensures
        split_spec(text) matches Some(m) ==> rec_lines_flat(m) == lines_of(text),
{
    let ls = lines_of(text);
    lemma_run_invariants(ls);
    let st = run(ls);
    if split_spec(text) is Some {
        let m = split_spec(text)->Some_0;
        assert(m.drop_last() =~= st.recs);
        assert(rec_lines_flat(m) == rec_lines_flat(st.recs) + st.acc);
    }
}

/// The contents of each record, as the splitter rejoins them.
pub open spec fn contents_views(rs: Seq<SRec>) -> Seq<Seq<char>> {
    rs.map_values(|r: SRec| join_lines(r.lines))
}

/// Rejoining distributes over concatenation of nonempty line groups.
proof fn lemma_join_lines_concat(a: Seq<Seq<char>>, b: Seq<Seq<char>>)
    requires
        a.len() > 0,
        b.len() > 0,
    ensures
        join_lines(a + b) == join_lines(a) + seq!['\n'] + join_lines(b),
    decreases b.len(),
{
    if b.len() == 1 {
        assert((a + b).drop_last() =~= a);
        assert((a + b).last() == b[0]);
        assert(join_lines(b) == b[0]);
    } else {
        lemma_join_lines_concat(a, b.drop_last());
        assert((a + b).drop_last() =~= a + b.drop_last());
        assert((a + b).last() == b.last());
        assert(join_lines(a) + seq!['\n'] + join_lines(b.drop_last()) + seq!['\n'] + b.last()
            =~= join_lines(a) + seq!['\n'] + (join_lines(b.drop_last()) + seq!['\n'] + b.last()));
    }
}

/// The lines of nonempty records concatenate to something nonempty.
proof fn lemma_rec_lines_flat_nonempty(rs: Seq<SRec>)
    requires
        rs.len() > 0,
        forall|j: int| 0 <= j < rs.len() ==> #[trigger] rs[j].lines.len() > 0,
    ensures
        rec_lines_flat(rs).len() > 0,
    decreases rs.len(),
{
    assert(rs.last().lines.len() > 0);
}

/// Records whose line groups are all nonempty: their contents,
/// rejoined with one `'\n'` between records, equal all their lines
/// rejoined.
proof fn lemma_contents_join(rs: Seq<SRec>)
    requires
        rs.len() > 0,
        forall|j: int| 0 <= j < rs.len() ==> #[trigger] rs[j].lines.len() > 0,
    ensures
        join_lines(contents_views(rs)) == join_lines(rec_lines_flat(rs)),
    decreases rs.len(),
{
    if rs.len() == 1 {
        assert(contents_views(rs) =~= seq![join_lines(rs[0].lines)]);
        let e: Seq<SRec> = Seq::empty();
        assert(rs.drop_last() =~= e);
        assert(rec_lines_flat(e) =~= Seq::<Seq<char>>::empty());
        assert(rec_lines_flat(rs) == rec_lines_flat(rs.drop_last()) + rs.last().lines);
        assert(rec_lines_flat(rs) =~= rs[0].lines);
    } else {
        let r0 = rs.drop_last();
        assert(forall|j: int| 0 <= j < r0.len() ==> r0[j] == rs[j]);
        lemma_contents_join(r0);
        lemma_rec_lines_flat_nonempty(r0);
        assert(contents_views(rs).drop_last() =~= contents_views(r0));
        assert(contents_views(rs).last() == join_lines(rs.last().lines));
        assert(join_lines(contents_views(rs)) == join_lines(contents_views(r0)) + seq!['\n']
            + join_lines(rs.last().lines));
        assert(rs.last().lines.len() > 0);
        lemma_join_lines_concat(rec_lines_flat(r0), rs.last().lines);
    }
}

/// Law: on success, concatenating the records' contents — with the
/// single `'\n'` the splitter uses restored between records — yields
/// the input text line for line, under this module's line policy.
pub proof fn lemma_contents_reproduce_input(text: Seq<char>)
    ensures
        split_spec(text) matches Some(m) ==> join_lines(contents_views(m)) == join_lines(
            lines_of(text),
        ),
{
    let ls = lines_of(text);
    lemma_run_invariants(ls);
    let st = run(ls);
    if split_spec(text) is Some {
        let m = split_spec(text)->Some_0;
        assert(m.drop_last() =~= st.recs);
        assert(rec_lines_flat(m) == rec_lines_flat(st.recs) + st.acc);
        assert(rec_lines_flat(m) =~= ls);
        assert(forall|j: int| 0 <= j < m.len() ==> #[trigger] m[j].lines.len() > 0) by {
            assert(forall|j: int| 0 <= j < st.recs.len() ==> m[j] == st.recs[j]);
            assert(m.last().lines == st.acc);
        }
        lemma_contents_join(m);
    }
}

/// Law: an input with no `"--- "` or `"+++ "` line anywhere is
/// malformed — the parse yields no records at all.
pub proof fn lemma_no_markers_is_malformed(text: Seq<char>)
    requires
        forall|k: int| 0 <= k < lines_of(text).len() ==> !is_marker(#[trigger] lines_of(text)[k]),
    ensures
        split_spec(text) is None,
{
    let ls = lines_of(text);
    lemma_run_invariants(ls);
    let st = run(ls);
    if st.old_name.len() > 0 {
        let k = choose|k: int| 0 <= k < ls.len() && is_old_marker(#[trigger] ls[k]);
        assert(is_marker(ls[k]));
    }
}

proof fn lemma_run_from_concat(st: SState, a: Seq<Seq<char>>, b: Seq<Seq<char>>)
    ensures
        run_from(st, a + b) == run_from(run_from(st, a), b),
    decreases b.len(),
{
    if b.len() == 0 {
        assert(a + b =~= a);
    } else {
        lemma_run_from_concat(st, a, b.drop_last());
        assert((a + b).drop_last() =~= a + b.drop_last());
        assert((a + b).last() == b.last());
    }
}

/// Lines with no `"--- "`/`"+++ "` marker only accumulate: with no
/// pending identities nothing flushes and none get set.
proof fn lemma_run_from_no_markers(st: SState, h: Seq<Seq<char>>)
    requires
        st.old_name.len() == 0,
        st.new_name.len() == 0,
        forall|i: int| 0 <= i < h.len() ==> !is_marker(#[trigger] h[i]),
    ensures
        run_from(st, h).recs == st.recs,
        run_from(st, h).acc == st.acc + h,
        run_from(st, h).old_name.len() == 0,
        run_from(st, h).new_name.len() == 0,
    decreases h.len(),
{
    if h.len() == 0 {
        assert(st.acc + h =~= st.acc);
    } else {
        lemma_run_from_no_markers(st, h.drop_last());
        assert(!is_marker(h.last()));
        assert(st.acc + h.drop_last() + seq![h.last()] =~= st.acc + h);
        assert((st.acc + h.drop_last()).push(h.last()) =~= st.acc + h.drop_last() + seq![
            h.last(),
        ]);
    }
}

/// Lines with no `"diff "` boundary never flush; markers among them
/// set the pending identities, which end nonempty when every marker
/// present normalizes to a nonempty identity and at least one of each
/// kind occurs.
proof fn lemma_run_from_section_body(st: SState, b: Seq<Seq<char>>)
    requires
        forall|i: int| 0 <= i < b.len() ==> !is_boundary_line(#[trigger] b[i]),
        forall|i: int|
            0 <= i < b.len() && is_old_marker(#[trigger] b[i]) ==> norm_name(
                b[i].skip(4),
            ).len() > 0,
        forall|i: int|
            0 <= i < b.len() && is_new_marker(#[trigger] b[i]) ==> norm_name(
                b[i].skip(4),
            ).len() > 0,
    ensures
        run_from(st, b).recs == st.recs,
        (exists|i: int| 0 <= i < b.len() && is_old_marker(#[trigger] b[i])) ==> run_from(
            st,
            b,
        ).old_name.len() > 0,
        (exists|i: int| 0 <= i < b.len() && is_new_marker(#[trigger] b[i])) ==> run_from(
            st,
            b,
        ).new_name.len() > 0,
    decreases b.len(),
{
    if b.len() > 0 {
        let b0 = b.drop_last();
        let x = b.last();
        lemma_run_from_section_body(st, b0);
        assert(forall|k: int| 0 <= k < b0.len() ==> b0[k] == b[k]);
        let st0 = run_from(st, b0);
        assert(run_from(st, b) == step(st0, x));
        assert(!is_boundary_line(x));
        if exists|i: int| 0 <= i < b.len() && is_old_marker(#[trigger] b[i]) {
            if is_old_marker(x) {
                assert(norm_name(x.skip(4)).len() > 0);
            } else {
                let i = choose|i: int| 0 <= i < b.len() && is_old_marker(#[trigger] b[i]);
                assert(is_old_marker(b0[i]));
                assert(st0.old_name.len() > 0);
            }
        }
        if exists|i: int| 0 <= i < b.len() && is_new_marker(#[trigger] b[i]) {
            if is_new_marker(x) && !is_old_marker(x) {
                assert(norm_name(x.skip(4)).len() > 0);
            } else {
                let i = choose|i: int| 0 <= i < b.len() && is_new_marker(#[trigger] b[i]);
                if i < b0.len() {
                    assert(is_new_marker(b0[i]));
                    assert(st0.new_name.len() > 0);
                } else {
                    assert(is_new_marker(x));
                    lemma_marker_kinds_disjoint(x);
                }
            }
        }
    }
}

/// Header lines: anything that is not a marker, `"diff "` lines
/// included.
pub open spec fn header_ok(h: Seq<Seq<char>>) -> bool {
    forall|i: int| 0 <= i < h.len() ==> !is_marker(#[trigger] h[i])
}

/// The body of a file section, after its `"diff "` boundary line: no
/// further boundary, at least one `"--- "` and one `"+++ "` marker,
/// and every marker present normalizes to a nonempty identity.
pub open spec fn section_body_ok(b: Seq<Seq<char>>) -> bool {
    &&& forall|i: int| 0 <= i < b.len() ==> !is_boundary_line(#[trigger] b[i])
    &&& exists|i: int| 0 <= i < b.len() && is_old_marker(#[trigger] b[i])
    &&& exists|i: int| 0 <= i < b.len() && is_new_marker(#[trigger] b[i])
    &&& forall|i: int|
        0 <= i < b.len() && is_old_marker(#[trigger] b[i]) ==> norm_name(b[i].skip(4)).len() > 0
    &&& forall|i: int|
        0 <= i < b.len() && is_new_marker(#[trigger] b[i]) ==> norm_name(b[i].skip(4)).len() > 0
}

/// One complete file section: a `"diff "` boundary line, then a
/// section body.
pub open spec fn section_ok(s: Seq<Seq<char>>) -> bool {
    s.len() >= 1 && is_boundary_line(s[0]) && section_body_ok(s.drop_first())
}

/// All the lines of a sequence of sections, in order.
pub open spec fn sections_flat(ss: Seq<Seq<Seq<char>>>) -> Seq<Seq<char>>
    decreases ss.len(),
{
    if ss.len() == 0 {
        seq![]
    } else {
        sections_flat(ss.drop_last()) + ss.last()
    }
}

/// No line is an old and a new marker at once: the prefixes differ in
/// the first character.
proof fn lemma_marker_kinds_disjoint(l: Seq<char>)
    ensures
        !(is_old_marker(l) && is_new_marker(l)),
{
    reveal_strlit("--- ");
    reveal_strlit("+++ ");
    if is_old_marker(l) && is_new_marker(l) {
        assert(l.take(4)[0] == l[0]);
    }
}

/// A boundary line is not a marker line: their prefixes differ in the
/// first character.
proof fn lemma_boundary_not_marker(l: Seq<char>)
    requires
        is_boundary_line(l),
    ensures
        !is_old_marker(l),
        !is_new_marker(l),
{
    reveal_strlit("diff ");
    reveal_strlit("--- ");
    reveal_strlit("+++ ");
    assert(l.take(5)[0] == l[0]);
    assert(l[0] == 'd');
    if is_old_marker(l) {
        assert(l.take(4)[0] == l[0]);
    }
    if is_new_marker(l) {
        assert(l.take(4)[0] == l[0]);
    }
}

/// Running one section from a state: the boundary line flushes when an
/// old identity is pending, else it only accumulates; the body then
/// leaves both identities pending and nonempty.
proof fn lemma_run_from_section(st: SState, s: Seq<Seq<char>>)
    requires
        section_ok(s),
    ensures
        st.old_name.len() > 0 ==> run_from(st, s).recs == st.recs.push(
            SRec { old: st.old_name, new: st.new_name, lines: st.acc },
        ),
        st.old_name.len() == 0 ==> run_from(st, s).recs == st.recs,
        run_from(st, s).old_name.len() > 0,
        run_from(st, s).new_name.len() > 0,
{
    let d = s[0];
    let body = s.drop_first();
    assert(s =~= seq![d] + body);
    lemma_run_from_concat(st, seq![d], body);
    let e: Seq<Seq<char>> = Seq::empty();
    assert(seq![d].drop_last() =~= e);
    assert(run_from(st, e) == st);
    assert(seq![d].last() == d);
    assert(run_from(st, seq![d]) == step(run_from(st, seq![d].drop_last()), seq![d].last()));
    assert(run_from(st, seq![d]) == step(st, d));
    lemma_boundary_not_marker(d);
    let st1 = step(st, d);
    assert(st1.recs.len() == if st.old_name.len() > 0 {
        st.recs.len() as int + 1
    } else {
        st.recs.len() as int
    });
    lemma_run_from_section_body(st1, body);
}

/// Law: a well-formed input — free-form header text, then `k` file
/// sections, each declaring its old and new identity and each but
/// possibly the first opened by a `"diff "` line — splits into
/// exactly `k` records, and every record carries a nonempty old and
/// new identity.
pub proof fn lemma_section_count(h: Seq<Seq<char>>, ss: Seq<Seq<Seq<char>>>)
    requires
        header_ok(h),
        ss.len() >= 1,
        section_ok(ss[0]) || section_body_ok(ss[0]),
        forall|i: int| 1 <= i < ss.len() ==> section_ok(#[trigger] ss[i]),
    ensures
        split_records(h + sections_flat(ss)) matches Some(m) && m.len() == ss.len() && forall|
            j: int,
        |
            0 <= j < m.len() ==> (#[trigger] m[j]).old.len() > 0 && m[j].new.len() > 0,
{
    lemma_sections_run(h, ss);
}

/// The state after the header and `j >= 1` sections: `j - 1` finished
/// records, every one with nonempty identities, and both identities
/// pending.
proof fn lemma_sections_run(h: Seq<Seq<char>>, ss: Seq<Seq<Seq<char>>>)
    requires
        header_ok(h),
        ss.len() >= 1,
        section_ok(ss[0]) || section_body_ok(ss[0]),
        forall|i: int| 1 <= i < ss.len() ==> section_ok(#[trigger] ss[i]),
    ensures
        run(h + sections_flat(ss)).recs.len() == ss.len() - 1,
        run(h + sections_flat(ss)).old_name.len() > 0,
        run(h + sections_flat(ss)).new_name.len() > 0,
        forall|j: int|
            0 <= j < run(h + sections_flat(ss)).recs.len() ==> (#[trigger] run(
                h + sections_flat(ss),
            ).recs[j]).old.len() > 0 && run(h + sections_flat(ss)).recs[j].new.len() > 0,
    decreases ss.len(),
{
    if ss.len() == 1 {
        let e: Seq<Seq<Seq<char>>> = Seq::empty();
        assert(ss.drop_last() =~= e);
        assert(sections_flat(e) =~= Seq::<Seq<char>>::empty());
        assert(sections_flat(ss) == sections_flat(ss.drop_last()) + ss.last());
        assert(sections_flat(ss) =~= ss[0]);
        lemma_run_from_concat(init_state(), h, ss[0]);
        lemma_run_from_no_markers(init_state(), h);
        let st_h = run_from(init_state(), h);
        if section_ok(ss[0]) {
            lemma_run_from_section(st_h, ss[0]);
        } else {
            lemma_run_from_section_body(st_h, ss[0]);
        }
    } else {
        let ss0 = ss.drop_last();
        assert(forall|i: int| 0 <= i < ss0.len() ==> ss0[i] == ss[i]);
        lemma_sections_run(h, ss0);
        assert(h + sections_flat(ss) =~= (h + sections_flat(ss0)) + ss.last());
        lemma_run_from_concat(init_state(), h + sections_flat(ss0), ss.last());
        let st_prev = run(h + sections_flat(ss0));
        lemma_run_from_section(st_prev, ss.last());
    }
}

/// Law: header text before the first marker line is kept, verbatim
/// and in place, inside the first record — never dropped and never a
/// record of its own.
pub proof fn lemma_header_stays_in_first_record(text: Seq<char>, h: int)
    requires
        0 <= h < lines_of(text).len(),
        forall|k: int| 0 <= k <= h ==> !is_marker(#[trigger] lines_of(text)[k]),
    ensures
        split_spec(text) matches Some(m) ==> m.len() > 0 && h < m[0].lines.len()
            && m[0].lines[h] == lines_of(text)[h],
{
    let ls = lines_of(text);
    lemma_run_invariants(ls);
    let st = run(ls);
    if split_spec(text) is Some {
        let m = split_spec(text)->Some_0;
        if st.recs.len() == 0 {
            assert(m[0].lines == ls);
        } else {
            assert(m[0] == st.recs[0]);
            let k = choose|k: int|
                0 <= k < st.recs[0].lines.len() && is_old_marker(#[trigger] ls[k]);
            assert(is_marker(ls[k]));
            assert(h < k);
            assert(m[0].lines == ls.take(m[0].lines.len() as int));
        }
    }
}

} // verus!
