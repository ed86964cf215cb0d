//! Commit points: which file of a directory is the latest commit.

use vstd::prelude::*;
use crate::error::{Error, ErrorKind, Result};
use crate::liv::base36_text;

verus! {

/// What the name of every commit file starts with.
pub const COMMIT_PREFIX: &'static str = "segments_";

/// The value of a digit in base 36, of either case.
pub open spec fn digit36(c: char) -> Option<nat> {
    if '0' <= c <= '9' {
        Some((c as u32 - 48) as nat)
    } else if 'a' <= c <= 'z' {
        Some((c as u32 - 87) as nat)
    } else if 'A' <= c <= 'Z' {
        Some((c as u32 - 55) as nat)
    } else {
        None
    }
}

/// The number that digits in base 36 spell.
pub open spec fn digits36(s: Seq<char>) -> Option<nat>
    decreases s.len(),
{
    if s.len() == 0 {
        Some(0)
    } else {
        match (digits36(s.drop_last()), digit36(s.last())) {
            (Some(a), Some(d)) => Some(36 * a + d),
            _ => None,
        }
    }
}

/// The `i64` that a text spells in base 36: an optional sign, then at least
/// one digit.
pub open spec fn spelled36(s: Seq<char>) -> Option<int> {
    let signed = s.len() > 0 && (s[0] == '-' || s[0] == '+');
    let digits = if signed {
        s.skip(1)
    } else {
        s
    };
    match digits36(digits) {
        Some(n) if digits.len() > 0 => {
            let v = if s[0] == '-' {
                -(n as int)
            } else {
                n as int
            };
            if i64::MIN <= v <= i64::MAX {
                Some(v)
            } else {
                None
            }
        },
        _ => None,
    }
}

/// Whether a file is named like a commit.
pub open spec fn is_commit(name: Seq<char>) -> bool {
    COMMIT_PREFIX@.len() <= name.len() && name.take(COMMIT_PREFIX@.len() as int) == COMMIT_PREFIX@
}

/// The generation in the name of a commit file, if it spells one.
pub open spec fn generation_of(name: Seq<char>) -> Option<int> {
    spelled36(name.skip(COMMIT_PREFIX@.len() as int))
}

/// The highest generation among the first `n` files, -1 where there is none
/// above it; nothing where some commit file's name spells no generation.
pub open spec fn highest_generation(files: Seq<Seq<char>>, n: nat) -> Option<int>
    decreases n,
{
    if n == 0 {
        Some(-1)
    } else {
        match highest_generation(files, (n - 1) as nat) {
            None => None,
            Some(best) => if !is_commit(files[n - 1]) {
                Some(best)
            } else {
                match generation_of(files[n - 1]) {
                    None => None,
                    Some(g) => Some(
                        if g > best {
                            g
                        } else {
                            best
                        },
                    ),
                }
            },
        }
    }
}

/// The name of the latest commit: that of the highest generation. Nothing
/// where there is no commit, or one whose generation cannot be told.
pub open spec fn last_commit_of(files: Seq<Seq<char>>) -> Option<Seq<char>> {
    match highest_generation(files, files.len()) {
        Some(g) => if g >= 0 {
            Some(COMMIT_PREFIX@ + base36_text(g as nat))
        } else {
            None
        },
        None => None,
    }
}

/// File names as mathematical values.
pub open spec fn listing(files: Seq<String>) -> Seq<Seq<char>> {
    Seq::new(files.len(), |i: int| files[i]@)
}

/// Wraps `bearing::index::segment_infos::get_last_commit_segments_file_name`,
/// which reads the generation of every file named like a commit in base 36,
/// as `i64::from_str_radix` does, and spells the highest one. It fails where
/// one of them spells none, and where none is above -1.
#[verifier::external_body]
fn last_commit_file(files: &Vec<String>) -> (r: Option<String>)
    ensures
        match r {
            Some(s) => last_commit_of(listing(files@)) == Some(s@),
            None => last_commit_of(listing(files@)) is None,
        },
{
    bearing::index::segment_infos::get_last_commit_segments_file_name(files).ok()
}

/// The file of the latest commit among the files of a directory; an invalid
/// argument where they are those of no segment directory.
pub fn latest_commit(files: &Vec<String>) -> (r: Result<String>)
    ensures
        match last_commit_of(listing(files@)) {
            Some(s) => r matches Ok(t) && t@ == s,
            None => r matches Err(e) && e.kind() == ErrorKind::InvalidArgument,
        },
{
    match last_commit_file(files) {
        Some(s) => Ok(s),
        None => Err(Error::invalid("not a Lucene segment directory")),
    }
}

/// No commit has a higher generation than the highest, and where there is
/// one, some commit has it.
proof fn lemma_highest(files: Seq<Seq<char>>, n: nat)
    requires
        n <= files.len(),
        highest_generation(files, n) is Some,
    ensures
        forall|i: int|
            0 <= i < n && is_commit(#[trigger] files[i]) ==> generation_of(files[i]) is Some && generation_of(files[i])->0
                <= highest_generation(files, n)->0,
        highest_generation(files, n)->0 >= 0 ==> exists|i: int|
            0 <= i < n && is_commit(#[trigger] files[i]) && generation_of(files[i]) == highest_generation(files, n),
    decreases n,
{
    if n > 0 {
        lemma_highest(files, (n - 1) as nat);
        let best = highest_generation(files, (n - 1) as nat)->0;
        let now = highest_generation(files, n);
        if now->0 >= 0 {
            if is_commit(files[n - 1]) && generation_of(files[n - 1])->0 > best {
                assert(generation_of(files[n - 1]) == now);
            } else {
                let i = choose|i: int|
                    0 <= i < n - 1 && is_commit(#[trigger] files[i]) && generation_of(files[i]) == highest_generation(
                        files,
                        (n - 1) as nat,
                    );
                assert(is_commit(files[i]) && generation_of(files[i]) == now);
            }
        }
    }
}

/// The latest generation wins: the commit that is opened is named after a
/// generation that some commit of the directory has, and none has a higher
/// one.
pub proof fn law_latest_generation_wins(files: Seq<Seq<char>>)
    requires
        last_commit_of(files) is Some,
    ensures
        exists|g: nat|
            {
                &&& last_commit_of(files) == Some(COMMIT_PREFIX@ + #[trigger] base36_text(g))
                &&& exists|i: int|
                    0 <= i < files.len() && is_commit(#[trigger] files[i]) && generation_of(files[i]) == Some(g as int)
                &&& forall|i: int|
                    0 <= i < files.len() && is_commit(#[trigger] files[i]) ==> generation_of(files[i]) is Some
                        && generation_of(files[i])->0 <= g
            },
{
    lemma_highest(files, files.len());
    let g = highest_generation(files, files.len())->0 as nat;
    assert(last_commit_of(files) == Some(COMMIT_PREFIX@ + base36_text(g)));
}

/// A commit that is named after a generation has that generation, so that
/// the name that is opened leads back to the commit it was chosen for.
pub proof fn law_commit_names_generation(g: nat)
    requires
        g <= i64::MAX,
    ensures
        is_commit(COMMIT_PREFIX@ + base36_text(g)),
        generation_of(COMMIT_PREFIX@ + base36_text(g)) == Some(g as int),
{
    let s = COMMIT_PREFIX@ + base36_text(g);
    let n = COMMIT_PREFIX@.len() as int;
    assert(s.take(n) =~= COMMIT_PREFIX@);
    assert(s.skip(n) =~= base36_text(g));
    crate::liv::law_base36_spells(g);
    lemma_digits36(base36_text(g));
}

/// Digits and lower-case letters are read as what they spell.
proof fn lemma_digits36(s: Seq<char>)
    requires
        forall|i: int| 0 <= i < s.len() ==> ('0' <= #[trigger] s[i] && s[i] <= '9') || ('a' <= s[i] && s[i] <= 'z'),
    ensures
        digits36(s) == Some(crate::liv::spelled36(s)),
    decreases s.len(),
{
    if s.len() > 0 {
        let t = s.drop_last();
        assert forall|i: int| 0 <= i < t.len() implies ('0' <= #[trigger] t[i] && t[i] <= '9') || ('a' <= t[i] && t[i]
            <= 'z') by {
            assert(t[i] == s[i]);
        }
        lemma_digits36(t);
        assert(s.last() == s[s.len() - 1]);
    }
}

/// A name that spells no generation stops the choice: no commit is opened in
/// a directory with a commit file that cannot be told.
pub proof fn law_unknown_commit_stops(files: Seq<Seq<char>>, n: nat, i: int)
    requires
        0 <= i < n <= files.len(),
        is_commit(files[i]),
        generation_of(files[i]) is None,
    ensures
        highest_generation(files, n) is None,
        n == files.len() ==> last_commit_of(files) is None,
    decreases n,
{
    if i < n - 1 {
        law_unknown_commit_stops(files, (n - 1) as nat, i);
    }
}

} // verus!
