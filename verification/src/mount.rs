use vstd::prelude::*;
use crate::narinfo::{split_words, words};
use crate::text::{chars_of, find_char, split_on, str_eq};

verus! {

/// `MS_BIND`: the flags of the first, binding mount.
pub const MS_BIND: u64 = 4096;

/// `MS_BIND | MS_REMOUNT | MS_RDONLY | MS_NOSUID | MS_NODEV`: the flags of the remount
/// that makes the bind read-only.
pub const READONLY_REMOUNT_FLAGS: u64 = 4135;

/// Whether a line of `/proc/self/mountinfo` describes a mount at `target`: its fifth
/// field (the mount point) is `target`.
pub open spec fn line_mounts(line: Seq<char>, target: Seq<char>) -> bool {
    words(line).len() >= 5 && words(line)[4] == target
}

/// Whether some line of a mountinfo table describes a mount at `target`.
pub open spec fn table_mounts(table: Seq<char>, target: Seq<char>) -> bool {
    exists|i: int|
        0 <= i < split_on(table, '\n').len() && line_mounts(
            #[trigger] split_on(table, '\n')[i],
            target,
        )
}

/// Whether the mountinfo table `content` has a mount at the canonical path `target`.
pub fn mountinfo_has(content: &str, target: &str) -> (r: bool)
    ensures
        r == table_mounts(content@, target@),
{
    let v = chars_of(content);
    let mut pos: usize = 0;
    let ghost mut seen: Seq<Seq<char>> = Seq::empty();
    proof {
        assert(v@.skip(0) =~= content@);
    }
    loop
        invariant_except_break
            seen + split_on(v@.skip(pos as int), '\n') == split_on(content@, '\n'),
        invariant
            pos <= v@.len(),
            v@ == content@,
            forall|j: int| 0 <= j < seen.len() ==> !line_mounts(#[trigger] seen[j], target@),
        ensures
            seen == split_on(content@, '\n'),
        decreases v@.len() - pos,
    {
        let end = match find_char(&v, pos, v.len(), '\n') {
            Some(k) => k,
            None => v.len(),
        };
        proof {
            crate::text::lemma_split_on_step(v@, '\n', pos as int, end as int);
        }
        let ghost line = v@.subrange(pos as int, end as int);
        let fields = split_words(&v, pos, end);
        if fields.len() >= 5 && str_eq(fields[4].as_str(), target) {
            proof {
                assert(line_mounts(line, target@));
                assert(split_on(content@, '\n')[seen.len() as int] == line);
            }
            return true;
        }
        proof {
            if words(line).len() >= 5 {
                assert(fields@[4]@ == words(line)[4]);
            }
            let old_seen = seen;
            seen = seen.push(line);
            assert forall|j: int| 0 <= j < seen.len() implies !line_mounts(
                #[trigger] seen[j],
                target@,
            ) by {
                if j < old_seen.len() {
                    assert(seen[j] == old_seen[j]);
                }
            }
            if end < v@.len() {
                assert(seen + split_on(v@.skip(end + 1), '\n') =~= old_seen + split_on(
                    v@.skip(pos as int),
                    '\n',
                ));
            } else {
                assert(seen =~= old_seen + split_on(v@.skip(pos as int), '\n'));
            }
        }
        if end == v.len() {
            break;
        }
        pos = end + 1;
    }
    proof {
        assert forall|i: int| 0 <= i < split_on(content@, '\n').len() implies !line_mounts(
            #[trigger] split_on(content@, '\n')[i],
            target@,
        ) by {
            assert(seen[i] == split_on(content@, '\n')[i]);
        }
    }
    false
}

} // verus!
