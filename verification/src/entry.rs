use vstd::prelude::*;

use crate::fingerprint::Fingerprint;

verus! {

/// A node of the filesystem tree: a file leaf or a directory with children.
pub struct Entry {
    pub is_file: bool,
    pub path: String,
    pub name: String,
    pub children: Vec<Entry>,
    pub level: u8,
    pub hash: Option<Fingerprint>,
}

/// The spec-level content of one flattened node: what the match engine reads
/// of an entry.
pub struct RecordView {
    pub is_file: bool,
    pub name: Seq<char>,
    pub path: Seq<char>,
    pub level: u8,
    pub hash: Option<Seq<u8>>,
}

/// One flattened node, carrying everything the match engine reads.
pub struct FileRecord {
    pub is_file: bool,
    pub name: String,
    pub path: String,
    pub level: u8,
    pub hash: Option<Fingerprint>,
}

impl View for FileRecord {
    type V = RecordView;

    open spec fn view(&self) -> RecordView {
        RecordView {
            is_file: self.is_file,
            name: self.name@,
            path: self.path@,
            level: self.level,
            hash: match self.hash {
                Some(f) => Some(f@),
                None => None,
            },
        }
    }
}

/// Every node of a sequence of sibling nodes is well-formed.
pub open spec fn wf_seq(s: Seq<Entry>) -> bool
    decreases s,
{
    if s.len() == 0 {
        true
    } else {
        s[0].wf() && wf_seq(s.drop_first())
    }
}

/// The sequence form of well-formedness says exactly that each node of the
/// sequence is well-formed.
pub proof fn lemma_wf_seq_iff_forall(s: Seq<Entry>)
    ensures
        wf_seq(s) <==> (forall|i: int| 0 <= i < s.len() ==> #[trigger] s[i].wf()),
    decreases s,
{
    if s.len() > 0 {
        let rest = s.drop_first();
        lemma_wf_seq_iff_forall(rest);
        if wf_seq(s) {
            assert forall|i: int| 0 <= i < s.len() implies #[trigger] s[i].wf() by {
                if i > 0 {
                    assert(rest[i - 1].wf());
                }
            }
        }
        if forall|i: int| 0 <= i < s.len() ==> #[trigger] s[i].wf() {
            assert(s[0].wf());
            assert forall|j: int| 0 <= j < rest.len() implies #[trigger] rest[j].wf() by {
                assert(s[j + 1].wf());
            }
            assert(wf_seq(s));
        }
    }
}

impl Entry {
    /// The spec-level content of this node, children aside.
    pub open spec fn record(self) -> RecordView {
        RecordView {
            is_file: self.is_file,
            name: self.name@,
            path: self.path@,
            level: self.level,
            hash: match self.hash {
                Some(f) => Some(f@),
                None => None,
            },
        }
    }

    /// A well-formed node is either a file leaf without children, optionally
    /// fingerprinted, or a directory without a fingerprint whose children are
    /// all well-formed. A fingerprint, where present, has its full size.
    pub open spec fn wf(self) -> bool
        decreases self,
    {
        &&& (self.is_file ==> self.children@.len() == 0)
        &&& (!self.is_file ==> self.hash is None)
        &&& (self.hash matches Some(f) ==> f.wf())
        &&& wf_seq(self.children@)
    }

    /// An empty non-file node, as a starting point for builders.
    pub fn new() -> (r: Entry)
        ensures
            r.is_file == false,
            r.path@ == Seq::<char>::empty(),
            r.name@ == Seq::<char>::empty(),
            r.children@ == Seq::<Entry>::empty(),
            r.level == 0,
            r.hash is None,
            r.wf(),
    {
        Entry {
            is_file: false,
            path: String::new(),
            name: String::new(),
            children: Vec::new(),
            level: 0,
            hash: None,
        }
    }

    /// A file leaf. The fingerprint is computed from the file's content
    /// where a complete read succeeded, and stays absent where it failed.
    pub fn new_file(name: String, path: String, level: u8, content: Option<&Vec<u8>>) -> (r: Entry)
        ensures
            r.is_file == true,
            r.name@ == name@,
            r.path@ == path@,
            r.level == level,
            r.children@.len() == 0,
            match content {
                Some(c) => r.hash matches Some(f) && f@ == crate::fingerprint::blake3_of(c@),
                None => r.hash is None,
            },
            r.wf(),
    {
        let hash = match content {
            Some(c) => Some(Fingerprint::of_content(c)),
            None => None,
        };
        Entry { is_file: true, path, name, children: Vec::new(), level, hash }
    }

    /// A directory node owning its children; it never carries a fingerprint.
    pub fn new_dir(name: String, path: String, level: u8, children: Vec<Entry>) -> (r: Entry)
        requires
            forall|i: int| 0 <= i < children@.len() ==> #[trigger] children@[i].wf(),
        ensures
            r.is_file == false,
            r.name@ == name@,
            r.path@ == path@,
            r.level == level,
            r.children@ == children@,
            r.hash is None,
            r.wf(),
    {
        let r = Entry { is_file: false, path, name, children, level, hash: None };
        proof {
            lemma_wf_seq_iff_forall(r.children@);
        }
        r
    }
}

} // verus!
