//! The output-name allocator: derives a filesystem-safe base name from
//! a patch record and picks the first candidate name that is not among
//! the occupied names of the output directory.

use vstd::prelude::*;

use crate::patch::AllocError;
use crate::patch::PatchFile;

verus! {

// ---------------------------------------------------------------------
// The name model.
// ---------------------------------------------------------------------

/// Characters never allowed in an output name: path separators and the
/// characters some filesystems refuse, plus `'.'` because the fixed
/// extension is appended afterwards.
pub open spec fn is_forbidden_char(c: char) -> bool {
    c == '/' || c == '<' || c == '>' || c == ':' || c == '"' || c == '\\' || c == '|'
        || c == '?' || c == '*' || c == '.'
}

/// The sanitized form of an identity: every forbidden character
/// becomes `'_'`, every other character stays.
pub open spec fn sanitize_spec(s: Seq<char>) -> Seq<char> {
    s.map_values(|c: char| if is_forbidden_char(c) { '_' } else { c })
}

/// The sentinel that diff tools use for a side that does not exist.
pub open spec fn null_device() -> Seq<char> {
    "/dev/null"@
}

/// The identity a record's output name is based on: the post-change
/// path, unless the file was deleted, then the pre-change path.
pub open spec fn chosen_identity(pf: PatchFile) -> Seq<char> {
    if pf.new@ == null_device() {
        pf.old@
    } else {
        pf.new@
    }
}

/// The sanitized base name of a record's output name.
pub open spec fn base_of(pf: PatchFile) -> Seq<char> {
    sanitize_spec(chosen_identity(pf))
}

/// The character for one decimal digit.
pub open spec fn digit_char(d: nat) -> char {
    if d == 0 {
        '0'
    } else if d == 1 {
        '1'
    } else if d == 2 {
        '2'
    } else if d == 3 {
        '3'
    } else if d == 4 {
        '4'
    } else if d == 5 {
        '5'
    } else if d == 6 {
        '6'
    } else if d == 7 {
        '7'
    } else if d == 8 {
        '8'
    } else {
        '9'
    }
}

/// The decimal digits of `n`, most significant first.
pub open spec fn dec_digits(n: nat) -> Seq<char>
    decreases n,
{
    if n < 10 {
        seq![digit_char(n)]
    } else {
        dec_digits(n / 10).push(digit_char(n % 10))
    }
}

/// The `n`-th candidate name for a base: the base with the fixed
/// extension, then with `-1`, `-2`, ... inserted before it.
pub open spec fn candidate(base: Seq<char>, n: nat) -> Seq<char> {
    if n == 0 {
        base + ".diff"@
    } else {
        base + "-"@ + dec_digits(n) + ".diff"@
    }
}

/// A name is free when it is not among the occupied names.
pub open spec fn is_free(occupied: Seq<Seq<char>>, name: Seq<char>) -> bool {
    forall|i: int| 0 <= i < occupied.len() ==> occupied[i] != name
}

/// The views of a sequence of occupied name strings.
pub open spec fn name_views(occupied: Seq<String>) -> Seq<Seq<char>> {
    occupied.map_values(|s: String| s@)
}

/// The least index in `k ..= bound` whose candidate name is free, if
/// there is one.
pub open spec fn first_free_from(
    base: Seq<char>,
    occupied: Seq<Seq<char>>,
    k: nat,
    bound: nat,
) -> Option<nat>
    decreases bound - k,
    when k <= bound
{
    if is_free(occupied, candidate(base, k)) {
        Some(k)
    } else if k == bound {
        None
    } else {
        first_free_from(base, occupied, k + 1, bound)
    }
}

/// What the allocator must return for a record, given the occupied
/// names: the first free candidate among the `occupied.len() + 1`
/// first ones, if any is free.
pub open spec fn alloc_spec(pf: PatchFile, occupied: Seq<Seq<char>>) -> Option<nat> {
    first_free_from(base_of(pf), occupied, 0, occupied.len())
}

// ---------------------------------------------------------------------
// Executable allocator.
// ---------------------------------------------------------------------

/// Replaces every forbidden character of an identity with `'_'`.
pub fn sanitize_identity(s: &str) -> (r: String)
    ensures
        r@ == sanitize_spec(s@),
{
    let n: usize = s.unicode_len();
    let mut r = String::new();
    let mut i: usize = 0;
    proof {
        assert(r@ =~= sanitize_spec(s@.take(0)));
    }
    while i < n
        invariant
            i <= n,
            n == s@.len(),
            r@ == sanitize_spec(s@.take(i as int)),
        decreases n - i,
    {
        let c = s.get_char(i);
        if c == '/' || c == '<' || c == '>' || c == ':' || c == '"' || c == '\\' || c == '|'
            || c == '?' || c == '*' || c == '.' {
            r.append("_");
            proof {
                reveal_strlit("_");
                assert("_"@ =~= seq!['_']);
            }
        } else {
            let piece: &str = s.substring_char(i, i + 1);
            proof {
                assert(piece@ =~= seq![c]);
            }
            r.append(piece);
        }
        proof {
            assert(r@ =~= sanitize_spec(s@.take(i as int + 1)));
        }
        i = i + 1;
    }
    proof {
        assert(s@.take(n as int) =~= s@);
    }
    r
}

/// The string of one decimal digit.
fn digit_str(d: u64) -> (r: &'static str)
    requires
        d < 10,
    ensures
        r@ == seq![digit_char(d as nat)],
{
    proof {
        reveal_strlit("0");
        reveal_strlit("1");
        reveal_strlit("2");
        reveal_strlit("3");
        reveal_strlit("4");
        reveal_strlit("5");
        reveal_strlit("6");
        reveal_strlit("7");
        reveal_strlit("8");
        reveal_strlit("9");
    }
    let r: &'static str = if d == 0 {
        "0"
    } else if d == 1 {
        "1"
    } else if d == 2 {
        "2"
    } else if d == 3 {
        "3"
    } else if d == 4 {
        "4"
    } else if d == 5 {
        "5"
    } else if d == 6 {
        "6"
    } else if d == 7 {
        "7"
    } else if d == 8 {
        "8"
    } else {
        "9"
    };
    proof {
        assert(r@ =~= seq![digit_char(d as nat)]);
    }
    r
}

/// Appends the decimal digits of `n` to `out`.
fn push_decimal(n: u64, out: &mut String)
    ensures
        final(out)@ == old(out)@ + dec_digits(n as nat),
    decreases n,
{
    if n < 10 {
        out.append(digit_str(n));
    } else {
        push_decimal(n / 10, out);
        out.append(digit_str(n % 10));
        proof {
            assert(old(out)@ + dec_digits(n as nat / 10) + seq![digit_char((n % 10) as nat)]
                =~= old(out)@ + dec_digits(n as nat));
        }
    }
}

/// Builds the `n`-th candidate name for a base.
fn candidate_name(base: &str, n: u64) -> (r: String)
    ensures
        r@ == candidate(base@, n as nat),
{
    let mut r = String::from_str(base);
    if n == 0 {
        r.append(".diff");
        proof {
            assert(r@ =~= candidate(base@, 0));
        }
    } else {
        r.append("-");
        push_decimal(n, &mut r);
        r.append(".diff");
        proof {
            assert(r@ =~= candidate(base@, n as nat));
        }
    }
    r
}

/// Whether a name occurs among the occupied names.
fn contains_name(occupied: &Vec<String>, name: &String) -> (b: bool)
    ensures
        b == !is_free(name_views(occupied@), name@),
{
    let mut i: usize = 0;
    while i < occupied.len()
        invariant
            i <= occupied.len(),
            forall|k: int| 0 <= k < i ==> name_views(occupied@)[k] != name@,
        decreases occupied.len() - i,
    {
        if occupied[i] == *name {
            assert(name_views(occupied@)[i as int] == name@);
            return true;
        }
        i = i + 1;
    }
    false
}

proof fn lemma_first_free_skip(base: Seq<char>, occupied: Seq<Seq<char>>, k: nat, bound: nat)
    requires
        k <= bound,
        forall|j: nat| j < k ==> !is_free(occupied, #[trigger] candidate(base, j)),
    ensures
        first_free_from(base, occupied, 0, bound) == first_free_from(base, occupied, k, bound),
    decreases k,
{
    if k > 0 {
        lemma_first_free_skip(base, occupied, (k - 1) as nat, bound);
    }
}

/// Picks the output name for one record: the sanitized base identity
/// with the fixed extension, with `-1`, `-2`, ... inserted before the
/// extension until the name is free of the occupied names. The first
/// free candidate is returned. One more candidate is tried than there
/// are occupied names; should every one of them be taken, the
/// allocator gives up with `TooManyCollisions` rather than search
/// without bound.
pub fn generate_filename(pf: &PatchFile, occupied: &Vec<String>) -> (r: Result<
    String,
    AllocError,
>)
    ensures
        match r {
            Ok(name) => {
                &&& alloc_spec(*pf, name_views(occupied@)) matches Some(k)
                &&& name@ == candidate(base_of(*pf), k)
            },
            Err(e) => {
                &&& e == AllocError::TooManyCollisions
                &&& alloc_spec(*pf, name_views(occupied@)) is None
            },
        },
{
    let base: String = if is_null_device(&pf.new) {
        sanitize_identity(pf.old.as_str())
    } else {
        sanitize_identity(pf.new.as_str())
    };
    let ghost b = base_of(*pf);
    let ghost occ = name_views(occupied@);
    let bound: usize = occupied.len();
    let mut k: usize = 0;
    loop
        invariant
            k <= bound,
            bound == occ.len(),
            base@ == b,
            b == base_of(*pf),
            occ == name_views(occupied@),
            forall|j: nat| j < k ==> !is_free(occ, #[trigger] candidate(b, j)),
        decreases bound - k,
    {
        let cand = candidate_name(base.as_str(), k as u64);
        proof {
            assert((k as u64) as nat == k as nat);
            assert(cand@ == candidate(b, k as nat));
        }
        if !contains_name(occupied, &cand) {
            proof {
                lemma_first_free_skip(b, occ, k as nat, bound as nat);
                assert(is_free(occ, candidate(b, k as nat)));
                assert(first_free_from(b, occ, k as nat, bound as nat) == Some(k as nat));
                assert(alloc_spec(*pf, occ) == Some(k as nat));
            }
            return Ok(cand);
        }
        if k == bound {
            proof {
                lemma_first_free_skip(b, occ, k as nat, bound as nat);
                assert(!is_free(occ, candidate(b, k as nat)));
                assert(first_free_from(b, occ, k as nat, bound as nat) is None);
                assert(alloc_spec(*pf, occ) is None);
            }
            return Err(AllocError::TooManyCollisions);
        }
        k = k + 1;
    }
}

/// Whether a declared identity is the null-device sentinel.
pub fn is_null_device(s: &String) -> (b: bool)
    ensures
        b == (s@ == null_device()),
{
    let nd = String::from_str("/dev/null");
    *s == nd
}

// ---------------------------------------------------------------------
// Laws.
// ---------------------------------------------------------------------

/// Law: a record whose post-change identity is the null-device
/// sentinel (a deletion) gets its output name from the pre-change
/// identity; every other record from the post-change identity.
pub proof fn lemma_deleted_file_uses_old_identity(pf: PatchFile)
    ensures
        pf.new@ == null_device() ==> base_of(pf) == sanitize_spec(pf.old@),
        pf.new@ != null_device() ==> base_of(pf) == sanitize_spec(pf.new@),
{
}

/// Law: sanitization maps every occurrence of a forbidden character
/// to an underscore and keeps every other character, position for
/// position.
pub proof fn lemma_sanitize_pointwise(s: Seq<char>)
    ensures
        sanitize_spec(s).len() == s.len(),
        forall|i: int|
            0 <= i < s.len() ==> sanitize_spec(s)[i] == (if is_forbidden_char(s[i]) {
                '_'
            } else {
                s[i]
            }),
{
}

/// Law: when the allocator settles on candidate `k`, that candidate is
/// free and every earlier candidate is occupied; when it gives up,
/// every candidate it may try is occupied. Together with the
/// allocator's contract: an occupied name is never returned, and the
/// suffixes `-1`, `-2`, ... are tried strictly in order.
pub proof fn lemma_allocation_is_first_free(base: Seq<char>, occupied: Seq<Seq<char>>)
    ensures
        match first_free_from(base, occupied, 0, occupied.len()) {
            Some(k) => {
                &&& k <= occupied.len()
                &&& is_free(occupied, candidate(base, k))
                &&& forall|j: nat| j < k ==> !is_free(occupied, #[trigger] candidate(base, j))
            },
            None => forall|j: nat|
                j <= occupied.len() ==> !is_free(occupied, #[trigger] candidate(base, j)),
        },
{
    lemma_first_free_range(base, occupied, 0, occupied.len());
}

proof fn lemma_first_free_range(base: Seq<char>, occupied: Seq<Seq<char>>, k: nat, bound: nat)
    requires
        k <= bound,
    ensures
        match first_free_from(base, occupied, k, bound) {
            Some(m) => {
                &&& k <= m <= bound
                &&& is_free(occupied, candidate(base, m))
                &&& forall|j: nat|
                    k <= j < m ==> !is_free(occupied, #[trigger] candidate(base, j))
            },
            None => forall|j: nat|
                k <= j <= bound ==> !is_free(occupied, #[trigger] candidate(base, j)),
        },
    decreases bound - k,
{
    if !is_free(occupied, candidate(base, k)) && k < bound {
        lemma_first_free_range(base, occupied, k + 1, bound);
    }
}

} // verus!

