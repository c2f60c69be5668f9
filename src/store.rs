//! Reference documents and the store that holds them.
use vstd::prelude::*;
use vstd::slice::slice_to_vec;
use vstd::string::StringSliceAdditionalSpecFns;
use crate::compressor::{compressed_len_of, compressed_length};
use crate::error::LangError;

verus! {

/// The largest reference document (and sample) in bytes that the engine
/// scores: with it every intermediate product of the scoring fits in 128 bits.
pub const MAX_DOC_LEN: usize = 16777216;

/// The largest number of reference documents a store holds.
pub const MAX_DOCS: usize = 4096;

/// One reference document, with its compressed length computed once.
pub struct LanguageDoc {
    pub data: Vec<u8>,
    pub compressed_size: usize,
}

impl LanguageDoc {
    /// The cached length is the compressed length of the bytes.
    pub open spec fn wf(&self) -> bool {
        &&& self.data@.len() <= MAX_DOC_LEN
        &&& self.compressed_size == compressed_len_of(self.data@)
        &&& 4 <= self.compressed_size <= 24 + 2 * self.data@.len()
    }

    pub fn new(data: &[u8]) -> (r: LanguageDoc)
        requires
            data@.len() <= MAX_DOC_LEN,
        ensures
            r.wf(),
            r.data@ == data@,
    {
        let compressed_size = compressed_length(data);
        LanguageDoc { data: slice_to_vec(data), compressed_size }
    }
}

/// A set of reference documents keyed by language identifier, kept in the
/// order in which the identifiers were first added.
pub struct Detector {
    pub names: Vec<String>,
    pub docs: Vec<LanguageDoc>,
}

/// The language identifiers of a list of names.
pub open spec fn ids_of(names: Seq<String>) -> Seq<Seq<char>> {
    names.map_values(|s: String| s@)
}

/// The byte contents of a list of documents.
pub open spec fn contents_of(docs: Seq<LanguageDoc>) -> Seq<Seq<u8>> {
    docs.map_values(|d: LanguageDoc| d.data@)
}

/// The sum of the compressed sizes of the first `k` documents.
pub open spec fn sizes_total(docs: Seq<LanguageDoc>, k: int) -> int
    decreases k,
{
    if k <= 0 { 0 } else { sizes_total(docs, k - 1) + docs[k - 1].compressed_size }
}

/// The position of `id` among `ids`, if it is there.
pub open spec fn position_of(ids: Seq<Seq<char>>, id: Seq<char>) -> Option<int> {
    if exists|k: int| 0 <= k < ids.len() && ids[k] == id {
        Some(choose|k: int| 0 <= k < ids.len() && ids[k] == id)
    } else {
        None
    }
}

impl Detector {
    /// Names and documents pair up, identifiers are unique, every cached
    /// length is right, and the store is within its bounds.
    pub open spec fn wf(&self) -> bool {
        &&& self.names@.len() == self.docs@.len()
        &&& self.docs@.len() <= MAX_DOCS
        &&& forall|i: int| 0 <= i < self.docs@.len() ==> (#[trigger] self.docs@[i]).wf()
        &&& forall|i: int, j: int|
            0 <= i < self.names@.len() && 0 <= j < self.names@.len() && i != j
                ==> self.names@[i]@ != self.names@[j]@
    }

    /// The identifiers, in store order.
    pub open spec fn ids(&self) -> Seq<Seq<char>> {
        ids_of(self.names@)
    }

    /// The documents' bytes, in store order.
    pub open spec fn contents(&self) -> Seq<Seq<u8>> {
        contents_of(self.docs@)
    }

    pub open spec fn len(&self) -> nat {
        self.docs@.len()
    }

    pub fn new() -> (r: Detector)
        ensures
            r.wf(),
            r.len() == 0,
    {
        Detector { names: Vec::new(), docs: Vec::new() }
    }

    /// The position of `name`, if the store holds a document under it.
    pub fn find(&self, name: &String) -> (r: Option<usize>)
        requires
            self.wf(),
        ensures
            r is None <==> position_of(self.ids(), name@) is None,
            r matches Some(k) ==> position_of(self.ids(), name@) == Some(k as int),
            r matches Some(k) ==> k < self.len() && self.ids()[k as int] == name@,
    {
        let mut i: usize = 0;
        while i < self.names.len()
            invariant
                self.wf(),
                i <= self.names@.len(),
                forall|k: int| 0 <= k < i ==> self.ids()[k] != name@,
            decreases self.names@.len() - i,
        {
            if self.names[i] == *name {
                proof {
                    assert(self.ids()[i as int] == name@);
                    let c = choose|k: int| 0 <= k < self.ids().len() && self.ids()[k] == name@;
                    assert(c == i as int);
                }
                return Some(i);
            }
            i += 1;
        }
        proof {
            assert(!exists|k: int| 0 <= k < self.ids().len() && self.ids()[k] == name@);
        }
        None
    }

    /// The mean compressed size of the documents, as the exact fraction
    /// `(total, count)`.
    pub fn mean_compressed_length(&self) -> (r: (u64, usize))
        requires
            self.wf(),
        ensures
            r.0 == sizes_total(self.docs@, self.docs@.len() as int),
            r.1 == self.len(),
    {
        let mut total: u64 = 0;
        let mut i: usize = 0;
        while i < self.docs.len()
            invariant
                self.wf(),
                i <= self.docs@.len(),
                total == sizes_total(self.docs@, i as int),
                total <= i * 33554456,
            decreases self.docs@.len() - i,
        {
            assert(self.docs@[i as int].wf());
            total = total + self.docs[i].compressed_size as u64;
            i += 1;
        }
        (total, self.docs.len())
    }

    /// Adds `data` under `name`, replacing the document already held under
    /// that name, if any, in its place.
    pub fn add_bytes(&mut self, data: &[u8], name: String)
        requires
            old(self).wf(),
            data@.len() <= MAX_DOC_LEN,
            old(self).len() < MAX_DOCS,
        ensures
            final(self).wf(),
            position_of(old(self).ids(), name@) matches Some(k) ==> {
                &&& final(self).ids() == old(self).ids()
                &&& final(self).contents() == old(self).contents().update(k, data@)
            },
            position_of(old(self).ids(), name@) is None ==> {
                &&& final(self).ids() == old(self).ids().push(name@)
                &&& final(self).contents() == old(self).contents().push(data@)
            },
    {
        let doc = LanguageDoc::new(data);
        match self.find(&name) {
            Some(k) => {
                self.docs.set(k, doc);
                proof {
                    assert(self.contents() =~= old(self).contents().update(k as int, data@));
                    assert forall|i: int| 0 <= i < self.docs@.len() implies (#[trigger] self.docs@[i]).wf() by {
                        if i != k as int {
                            assert(self.docs@[i] == old(self).docs@[i]);
                        }
                    }
                }
            },
            None => {
                self.names.push(name);
                self.docs.push(doc);
                proof {
                    assert(self.ids() =~= old(self).ids().push(name@));
                    assert forall|i: int| 0 <= i < old(self).names@.len() implies old(self).names@[i]@ != name@ by {
                        if old(self).names@[i]@ == name@ {
                            assert(old(self).ids()[i] == name@);
                        }
                    }
                    assert forall|i: int| 0 <= i < self.docs@.len() implies (#[trigger] self.docs@[i]).wf() by {
                        if i < old(self).docs@.len() {
                            assert(self.docs@[i] == old(self).docs@[i]);
                        }
                    }
                    assert(self.contents() =~= old(self).contents().push(data@));
                }
            },
        }
    }

    /// Adds the UTF-8 bytes of `data` under `name`, as `add_bytes` does.
    pub fn add_str(&mut self, data: &str, name: String)
        requires
            old(self).wf(),
            data.spec_bytes().len() <= MAX_DOC_LEN,
            old(self).len() < MAX_DOCS,
        ensures
            final(self).wf(),
            position_of(old(self).ids(), name@) matches Some(k) ==> {
                &&& final(self).ids() == old(self).ids()
                &&& final(self).contents() == old(self).contents().update(k, data.spec_bytes())
            },
            position_of(old(self).ids(), name@) is None ==> {
                &&& final(self).ids() == old(self).ids().push(name@)
                &&& final(self).contents() == old(self).contents().push(data.spec_bytes())
            },
    {
        self.add_bytes(data.as_bytes(), name)
    }
}

/// Whether the file at enumeration position `index`, named `name`, is
/// loaded: every `sparsity`-th file, the desired language, and every name
/// listed in `also_include`.
pub open spec fn selected(index: int, name: Seq<char>, sparsity: int, desired: Seq<char>, also_include: Seq<Seq<char>>) -> bool {
    index % sparsity == 0 || name == desired || also_include.contains(name)
}

/// Whether the file at position `index`, named `name`, is loaded.
pub fn include_reference(index: usize, name: &String, sparsity: usize, desired: &String, also_include: &Vec<String>) -> (r: bool)
    requires
        sparsity >= 1,
    ensures
        r == selected(index as int, name@, sparsity as int, desired@, ids_of(also_include@)),
{
    if index % sparsity == 0 || *name == *desired {
        return true;
    }
    let mut k: usize = 0;
    while k < also_include.len()
        invariant
            k <= also_include@.len(),
            forall|j: int| 0 <= j < k ==> ids_of(also_include@)[j] != name@,
        decreases also_include@.len() - k,
    {
        if also_include[k] == *name {
            assert(ids_of(also_include@)[k as int] == name@);
            return true;
        }
        k += 1;
    }
    assert(!ids_of(also_include@).contains(name@));
    false
}

/// The positions of the files that are loaded, in increasing order.
pub fn select_references(names: &Vec<String>, sparsity: usize, desired: &String, also_include: &Vec<String>) -> (r: Vec<usize>)
    requires
        sparsity >= 1,
    ensures
        forall|k: int, l: int| 0 <= k < l < r@.len() ==> r@[k] < r@[l],
        forall|k: int| 0 <= k < r@.len() ==> #[trigger] r@[k] < names@.len(),
        forall|i: int|
            0 <= i < names@.len() ==> (r@.contains(i as usize) <==> selected(
                i,
                names@[i]@,
                sparsity as int,
                desired@,
                ids_of(also_include@),
            )),
{
    let mut out: Vec<usize> = Vec::new();
    let mut i: usize = 0;
    while i < names.len()
        invariant
            sparsity >= 1,
            i <= names@.len(),
            forall|k: int, l: int| 0 <= k < l < out@.len() ==> out@[k] < out@[l],
            forall|k: int| 0 <= k < out@.len() ==> #[trigger] out@[k] < i,
            forall|j: int|
                0 <= j < i ==> (out@.contains(j as usize) <==> selected(
                    j,
                    names@[j]@,
                    sparsity as int,
                    desired@,
                    ids_of(also_include@),
                )),
        decreases names@.len() - i,
    {
        let ghost before = out@;
        if include_reference(i, &names[i], sparsity, desired, also_include) {
            out.push(i);
            proof {
                assert(out@[before.len() as int] == i);
                assert forall|j: int| 0 <= j < i implies (#[trigger] out@.contains(j as usize) <==> before.contains(j as usize)) by {
                    if out@.contains(j as usize) {
                        let k = choose|k: int| 0 <= k < out@.len() && out@[k] == j as usize;
                        if k < before.len() {
                            assert(before[k] == j as usize);
                        }
                    }
                    if before.contains(j as usize) {
                        let k = choose|k: int| 0 <= k < before.len() && before[k] == j as usize;
                        assert(out@[k] == j as usize);
                    }
                }
            }
        } else {
            proof {
                assert forall|k: int| 0 <= k < out@.len() implies out@[k] != i by {
                    assert(out@[k] < i);
                }
            }
        }
        i += 1;
    }
    out
}

/// The identifiers and contents of the documents a store is built from:
/// those no larger than `MAX_DOC_LEN`, in order.
pub open spec fn loadable(names: Seq<Seq<char>>, contents: Seq<Seq<u8>>, k: int) -> (Seq<Seq<char>>, Seq<Seq<u8>>)
    decreases k,
{
    if k <= 0 {
        (Seq::empty(), Seq::empty())
    } else {
        let (ids, docs) = loadable(names, contents, k - 1);
        if contents[k - 1].len() <= MAX_DOC_LEN {
            (ids.push(names[k - 1]), docs.push(contents[k - 1]))
        } else {
            (ids, docs)
        }
    }
}

/// `x` is one of the first `k` names.
pub open spec fn among(names: Seq<Seq<char>>, x: Seq<char>, k: int) -> bool {
    exists|i: int| 0 <= i < k && names[i] == x
}

proof fn lemma_loadable_from(names: Seq<Seq<char>>, contents: Seq<Seq<u8>>, k: int)
    requires
        0 <= k <= names.len(),
        names.len() == contents.len(),
    ensures
        loadable(names, contents, k).0.len() == loadable(names, contents, k).1.len(),
        loadable(names, contents, k).0.len() <= k,
        forall|j: int| 0 <= j < loadable(names, contents, k).0.len() ==> #[trigger] among(names, loadable(names, contents, k).0[j], k),
    decreases k,
{
    if k > 0 {
        lemma_loadable_from(names, contents, k - 1);
        let prev = loadable(names, contents, k - 1).0;
        let cur = loadable(names, contents, k).0;
        assert forall|j: int| 0 <= j < cur.len() implies #[trigger] among(names, cur[j], k) by {
            if j < prev.len() {
                assert(cur[j] == prev[j]);
                assert(among(names, prev[j], k - 1));
                let i = choose|i: int| 0 <= i < k - 1 && names[i] == prev[j];
                assert(names[i] == cur[j]);
            } else {
                assert(cur[j] == names[k - 1]);
            }
        }
    }
}

impl Detector {
    /// Builds a store from loaded files, skipping those larger than
    /// `MAX_DOC_LEN`; fails when none is left.
    pub fn from_documents(names: Vec<String>, contents: Vec<Vec<u8>>) -> (r: Result<Detector, LangError>)
        requires
            names@.len() == contents@.len(),
            names@.len() <= MAX_DOCS,
            forall|i: int, j: int| 0 <= i < j < names@.len() ==> names@[i]@ != names@[j]@,
        ensures
            r matches Ok(d) ==> {
                &&& d.wf()
                &&& d.ids() == loadable(ids_of(names@), contents@.map_values(|v: Vec<u8>| v@), names@.len() as int).0
                &&& d.contents() == loadable(ids_of(names@), contents@.map_values(|v: Vec<u8>| v@), names@.len() as int).1
            },
            r is Err <==> loadable(ids_of(names@), contents@.map_values(|v: Vec<u8>| v@), names@.len() as int).0.len() == 0,
            r matches Err(e) ==> e == LangError::NoReferenceFiles,
    {
        let ghost ids = ids_of(names@);
        let ghost bytes = contents@.map_values(|v: Vec<u8>| v@);
        let mut d = Detector::new();
        let mut i: usize = 0;
        while i < names.len()
            invariant
                names@.len() == contents@.len(),
                names@.len() <= MAX_DOCS,
                forall|a: int, b: int| 0 <= a < b < names@.len() ==> names@[a]@ != names@[b]@,
                ids == ids_of(names@),
                bytes == contents@.map_values(|v: Vec<u8>| v@),
                i <= names@.len(),
                d.wf(),
                d.ids() == loadable(ids, bytes, i as int).0,
                d.contents() == loadable(ids, bytes, i as int).1,
            decreases names@.len() - i,
        {
            proof {
                lemma_loadable_from(ids, bytes, i as int);
            }
            if contents[i].len() <= MAX_DOC_LEN {
                proof {
                    assert forall|k: int| 0 <= k < d.ids().len() implies d.ids()[k] != ids[i as int] by {
                        assert(among(ids, loadable(ids, bytes, i as int).0[k], i as int));
                        let j = choose|j: int| 0 <= j < i && ids[j] == loadable(ids, bytes, i as int).0[k];
                        assert(ids[j] == names@[j]@);
                        assert(ids[i as int] == names@[i as int]@);
                    }
                    assert(position_of(d.ids(), ids[i as int]) is None);
                }
                d.add_bytes(contents[i].as_slice(), names[i].clone());
            }
            i += 1;
        }
        if d.docs.len() == 0 {
            Err(LangError::NoReferenceFiles)
        } else {
            Ok(d)
        }
    }
}

} // verus!
