use vstd::prelude::*;
use crate::text::{chars_of, has_word_at};

verus! {

/// Where a named source or destination of samples lives.
#[derive(Clone, Copy, Debug, PartialEq, Eq, Structural)]
pub enum FileData {
    CSV,
    Terminal,
    Nothing,
}

/// Where the last dot-separated segment of `name` starts: behind its last
/// dot, at the front where it has none.
pub open spec fn extension_start(name: Seq<char>) -> int
    decreases name.len(),
{
    if name.len() == 0 {
        0
    } else if name.last() == '.' {
        name.len() as int
    } else {
        extension_start(name.drop_last())
    }
}

/// The last dot-separated segment of `name`.
pub open spec fn extension(name: Seq<char>) -> Seq<char> {
    name.skip(extension_start(name))
}

/// Whether the last dot-separated segment of `name` starts at `start`: no
/// dot stands from there on, and one stands just before unless the segment
/// is the whole name.
pub open spec fn starts_extension(name: Seq<char>, start: int) -> bool {
    &&& 0 <= start <= name.len()
    &&& start > 0 ==> name[start - 1] == '.'
    &&& forall|j: int| start <= j < name.len() ==> name[j] != '.'
}

/// The last segment starts where `starts_extension` says, and nowhere else.
pub proof fn lemma_extension_start(name: Seq<char>, start: int)
    ensures
        starts_extension(name, start) <==> start == extension_start(name),
    decreases name.len(),
{
    if name.len() == 0 {
    } else if name.last() == '.' {
        if starts_extension(name, start) && start < name.len() {
            assert(name[name.len() - 1] != '.');
        }
    } else {
        let front = name.drop_last();
        lemma_extension_start(front, start);
        lemma_extension_start(front, extension_start(front));
        if starts_extension(name, start) {
            if start == name.len() {
                assert(name[start - 1] == '.');
            }
            assert(starts_extension(front, start));
        }
        if start == extension_start(name) {
            assert(starts_extension(front, start));
            assert forall|j: int| start <= j < name.len() implies name[j] != '.' by {
                if j < front.len() {
                    assert(front[j] != '.');
                }
            }
        }
    }
}

/// Whether `name` from `start` on is `word`.
fn ends_with_word(name: &Vec<char>, start: usize, word: &str) -> (r: bool)
    requires
        start <= name.len(),
    ensures
        r == (name@.skip(start as int) == word@),
{
    let word: Vec<char> = chars_of(word);
    let r = name.len() - start == word.len() && has_word_at(name, start, &word);
    assert(r ==> name@.skip(start as int) =~= word@);
    r
}

impl FileData {
    /// The kind of place that a last segment names.
    pub open spec fn of_extension(segment: Seq<char>) -> FileData {
        if segment == "csv"@ {
            FileData::CSV
        } else if segment == "terminal"@ || segment == "console"@ || segment == "tty"@ {
            FileData::Terminal
        } else {
            FileData::Nothing
        }
    }

    /// The kind of place that `val` names, told by its last dot-separated
    /// segment.
    pub fn from_string(val: &str) -> (r: FileData)
        ensures
            r == FileData::of_extension(extension(val@)),
    {
        let name: Vec<char> = chars_of(val);
        let n: usize = name.len();
        let mut start: usize = n;
        while start > 0 && name[start - 1] != '.'
            invariant
                n == name.len(),
                start <= n,
                forall|j: int| start <= j < n ==> name[j] != '.',
            decreases start,
        {
            start = start - 1;
        }
        proof {
            lemma_extension_start(name@, start as int);
        }
        if ends_with_word(&name, start, "csv") {
            FileData::CSV
        } else if ends_with_word(&name, start, "terminal") || ends_with_word(
            &name,
            start,
            "console",
        ) || ends_with_word(&name, start, "tty") {
            FileData::Terminal
        } else {
            FileData::Nothing
        }
    }
}

} // verus!
