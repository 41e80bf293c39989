use vstd::prelude::*;
use vstd::string::{StrSliceExecFns, StringExecFns};
use crate::error::TreeError;
use crate::size::{file_size_to_string, size_label};

verus! {

/// One file of the tree: its own name, its extension, and its size in bytes
/// and as a label.
pub struct FileInfo {
    pub path: String,
    pub extension: String,
    pub file_size_raw: u64,
    pub file_size_label: String,
}

/// An entry of a directory: a file, or a subdirectory given as its own
/// mapping.
pub enum TreeType {
    File(FileInfo),
    Dir(Vec<(String, Vec<TreeType>)>),
}

/// A mapping from a directory's name to its entries, in the order in which
/// they were listed. A directory with no entries has no key, so the mapping
/// holds at most one pair.
pub type Tree = Vec<(String, Vec<TreeType>)>;

/// A mapping is well formed when no two of its pairs share a key.
pub open spec fn tree_wf(t: Seq<(String, Vec<TreeType>)>) -> bool {
    forall|i: int, j: int| 0 <= i < j < t.len() ==> t[i].0@ != t[j].0@
}

/// One entry of a directory as listed, in listing order: a subdirectory
/// already mapped, a file with its name and byte length, or anything else
/// (a socket, a broken link), which the tree leaves out.
pub enum Listed {
    Dir(Tree),
    File(String, u64),
    Other,
}

/// The listed entries that the tree keeps: all but `Other`, in order.
pub open spec fn kept(listed: Seq<Listed>) -> Seq<Listed>
    decreases listed.len(),
{
    if listed.len() == 0 {
        Seq::empty()
    } else if listed.last() is Other {
        kept(listed.drop_last())
    } else {
        kept(listed.drop_last()).push(listed.last())
    }
}

/// `e` is the tree entry for the listed entry `l` at precision `p`.
pub open spec fn entry_of(e: TreeType, l: Listed, p: nat) -> bool {
    match l {
        Listed::Dir(t) => e == TreeType::Dir(t),
        Listed::File(name, len) => match e {
            TreeType::File(f) => {
                &&& f.path@ == name@
                &&& f.extension@ == extension_of(name@)
                &&& f.file_size_raw == len
                &&& f.file_size_label@ == size_label(len as nat, p)
            },
            TreeType::Dir(_) => false,
        },
        Listed::Other => false,
    }
}

/// Whether some listed entry is a file.
pub open spec fn has_file(listed: Seq<Listed>) -> bool {
    exists|i: int| 0 <= i < listed.len() && listed[i] is File
}

/// The index of the last `c` in `s`, or -1 when there is none.
pub open spec fn last_index_of(s: Seq<char>, c: char) -> int
    decreases s.len(),
{
    if s.len() == 0 {
        -1
    } else if s.last() == c {
        s.len() - 1
    } else {
        last_index_of(s.drop_last(), c)
    }
}

/// The extension of a file name: what follows its last `'.'`. A name with no
/// `'.'`, or whose only `'.'` comes first (a hidden file such as `.profile`),
/// has the empty extension.
pub open spec fn extension_of(name: Seq<char>) -> Seq<char> {
    let i = last_index_of(name, '.');
    if i > 0 {
        name.subrange(i + 1, name.len() as int)
    } else {
        Seq::empty()
    }
}

/// The extension of a file name, empty when the name has none.
pub fn file_extension(name: &str) -> (r: String)
    ensures
        r@ == extension_of(name@),
{
    let n: usize = name.unicode_len();
    let mut i: usize = n;
    proof {
        assert(name@.subrange(0, n as int) =~= name@);
    }
    while i > 0 && name.get_char(i - 1) != '.'
        invariant
            i <= n,
            n == name@.len(),
            last_index_of(name@, '.') == last_index_of(name@.subrange(0, i as int), '.'),
        decreases i,
    {
        proof {
            assert(name@.subrange(0, i as int).drop_last() =~= name@.subrange(0, i - 1));
        }
        i -= 1;
    }
    proof {
        if i == 0 {
            assert(name@.subrange(0, 0) =~= Seq::<char>::empty());
        } else {
            assert(name@.subrange(0, i as int).last() == '.');
        }
    }
    if i > 1 {
        String::from_str(name.substring_char(i, n))
    } else {
        String::new()
    }
}

/// The entry of one file: its name, the extension taken from the name, its
/// size, and the size's label at precision `file_size_round`. A negative
/// precision is refused.
pub fn file_info(name: &str, file_size_raw: u64, file_size_round: i32) -> (r: Result<
    FileInfo,
    TreeError,
>)
    ensures
        file_size_round < 0 <==> r is Err,
        r is Err ==> r->Err_0 is InvalidArgument,
        r is Ok ==> ({
            let f = r->Ok_0;
            &&& f.path@ == name@
            &&& f.extension@ == extension_of(name@)
            &&& f.file_size_raw == file_size_raw
            &&& f.file_size_label@ == size_label(file_size_raw as nat, file_size_round as nat)
        }),
{
    match file_size_to_string(file_size_raw, file_size_round) {
        Ok(label) => Ok(
            FileInfo {
                path: String::from_str(name),
                extension: file_extension(name),
                file_size_raw,
                file_size_label: label,
            },
        ),
        Err(e) => Err(e),
    }
}

/// The entries of one directory from what its listing gave, in listing
/// order: a subdirectory becomes a directory entry (an empty one too), a file
/// becomes a file entry labelled at precision `file_size_round`, and anything
/// else is skipped. A negative precision is refused when there is a file to
/// label.
pub fn dir_children(listed: Vec<Listed>, file_size_round: i32) -> (r: Result<
    Vec<TreeType>,
    TreeError,
>)
    ensures
        r is Err <==> (file_size_round < 0 && has_file(listed@)),
        r is Err ==> r->Err_0 is InvalidArgument,
        r is Ok ==> r->Ok_0@.len() == kept(listed@).len(),
        r is Ok ==> forall|i: int|
            0 <= i < r->Ok_0@.len() ==> entry_of(
                #[trigger] r->Ok_0@[i],
                kept(listed@)[i],
                file_size_round as nat,
            ),
{
    let ghost all = listed@;
    let n: usize = listed.len();
    let mut rest = listed;
    let mut out: Vec<TreeType> = Vec::new();
    let mut i: usize = 0;
    proof {
        assert(all.subrange(0, 0) =~= Seq::<Listed>::empty());
        assert(rest@ =~= all.subrange(0, n as int));
    }
    while i < n
        invariant
            i <= n,
            n == all.len(),
            all == listed@,
            rest@ == all.subrange(i as int, n as int),
            out@.len() == kept(all.subrange(0, i as int)).len(),
            forall|j: int|
                0 <= j < out@.len() ==> entry_of(
                    #[trigger] out@[j],
                    kept(all.subrange(0, i as int))[j],
                    file_size_round as nat,
                ),
            file_size_round < 0 ==> !has_file(all.subrange(0, i as int)),
        decreases n - i,
    {
        let item = rest.remove(0);
        let ghost before = out@;
        let ghost prefix = all.subrange(0, i as int);
        proof {
            assert(item == all[i as int]);
            assert(all.subrange(0, i + 1).drop_last() =~= prefix);
            assert(all.subrange(0, i + 1).last() == item);
        }
        match item {
            Listed::Dir(t) => {
                out.push(TreeType::Dir(t));
            },
            Listed::File(name, len) => {
                match file_info(name.as_str(), len, file_size_round) {
                    Ok(f) => {
                        out.push(TreeType::File(f));
                    },
                    Err(e) => {
                        proof {
                            assert(all[i as int] is File);
                            assert(has_file(all));
                        }
                        return Err(e);
                    },
                }
            },
            Listed::Other => {},
        }
        proof {
            assert(rest@ =~= all.subrange(i + 1, n as int));
            let next = all.subrange(0, i + 1);
            assert forall|j: int|
                0 <= j < out@.len() implies entry_of(
                    #[trigger] out@[j],
                    kept(next)[j],
                    file_size_round as nat,
                ) by {
                if j < before.len() {
                    assert(out@[j] == before[j]);
                }
            }
            if file_size_round < 0 {
                assert forall|j: int| 0 <= j < next.len() implies !(next[j] is File) by {
                    if j < i {
                        assert(next[j] == prefix[j]);
                    }
                }
            }
        }
        i += 1;
    }
    proof {
        assert(all.subrange(0, n as int) =~= all);
    }
    Ok(out)
}

/// The mapping of a directory named `name` whose entries are `children`:
/// one key for the directory when it has entries, no key when it has none.
pub fn dir_tree(name: String, children: Vec<TreeType>) -> (r: Tree)
    ensures
        tree_wf(r@),
        children@.len() == 0 ==> r@.len() == 0,
        children@.len() > 0 ==> r@ == seq![(name, children)],
{
    let mut data: Tree = Vec::new();
    if children.len() > 0 {
        data.push((name, children));
        proof {
            assert(data@ =~= seq![(name, children)]);
        }
    }
    data
}

} // verus!
