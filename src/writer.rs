//! Building an index: files are added one at a time in sorted order of name,
//! and `flush` turns what was gathered into an `Index`.

use crate::index::{byte_strings, Index, IndexError};
use crate::names::{compare_names, lex_lt, names_sorted};
use crate::postings::{group_keys, key, key_id, key_tri, lemma_key_parts, listed, make_key};
use crate::sorted::sort_keys;
use crate::trigram::{extract, extraction, ExtractConfig};
use vstd::prelude::*;

verus! {

/// `ix` lists file `id` under trigram `t` exactly when `files[id]` holds `t`.
pub open spec fn indexes(ix: &Index, files: Seq<Set<u32>>) -> bool {
    forall|t: u32, id: u32| #[trigger] ix.list_of(t).contains(id) <==> (id < files.len() && files[id as int].contains(t))
}

pub struct IndexWriter {
    config: ExtractConfig,
    paths: Vec<Vec<u8>>,
    names: Vec<Vec<u8>>,
    keys: Vec<u64>,
    flushed: bool,
    files: Ghost<Seq<Set<u32>>>,
}

impl IndexWriter {
    /// The names of the files added, in the order added; a name's position is its id.
    pub closed spec fn file_names(&self) -> Seq<Seq<u8>> {
        byte_strings(self.names@)
    }

    /// The trigram set of each file added.
    pub closed spec fn file_trigrams(&self) -> Seq<Set<u32>> {
        self.files@
    }

    /// The roots recorded by `add_paths`.
    pub closed spec fn roots(&self) -> Seq<Seq<u8>> {
        byte_strings(self.paths@)
    }

    /// The limits under which files are indexed.
    pub closed spec fn limits(&self) -> ExtractConfig {
        self.config
    }

    pub closed spec fn is_flushed(&self) -> bool {
        self.flushed
    }

    pub closed spec fn wf(&self) -> bool {
        &&& self.names@.len() == self.files@.len()
        &&& self.names@.len() <= u32::MAX
        &&& names_sorted(byte_strings(self.names@))
        &&& forall|k: int|
            0 <= k < self.keys@.len() ==> key_id(#[trigger] self.keys@[k]) < self.names@.len()
                && self.files@[key_id(self.keys@[k]) as int].contains(key_tri(self.keys@[k]))
        &&& forall|i: int, t: u32|
            0 <= i < self.files@.len() && #[trigger] self.files@[i].contains(t) ==> self.keys@.contains(
                key(t, i as u32),
            )
    }

    /// A well-formed writer holds one trigram set for each name added, the
    /// set of the file with that id.
    pub proof fn lemma_models_align(&self)
        requires
            self.wf(),
        ensures
            self.file_trigrams().len() == self.file_names().len(),
    {
    }

    /// A writer with nothing added.
    pub fn new(config: ExtractConfig) -> (r: IndexWriter)
        ensures
            r.wf(),
            r.limits() == config,
            r.file_names() == Seq::<Seq<u8>>::empty(),
            r.file_trigrams() == Seq::<Set<u32>>::empty(),
            r.roots() == Seq::<Seq<u8>>::empty(),
            !r.is_flushed(),
    {
        let r = IndexWriter {
            config,
            paths: Vec::new(),
            names: Vec::new(),
            keys: Vec::new(),
            flushed: false,
            files: Ghost(Seq::empty()),
        };
        assert(r.file_names() =~= Seq::<Seq<u8>>::empty());
        assert(r.roots() =~= Seq::<Seq<u8>>::empty());
        r
    }

    /// The limits under which files are indexed.
    pub fn config(&self) -> (r: ExtractConfig)
        ensures
            r == self.limits(),
    {
        self.config
    }

    /// Replaces the limits under which later files are indexed.
    pub fn set_config(&mut self, config: ExtractConfig)
        requires
            old(self).wf(),
        ensures
            final(self).wf(),
            final(self).limits() == config,
            final(self).roots() == old(self).roots(),
            final(self).file_names() == old(self).file_names(),
            final(self).file_trigrams() == old(self).file_trigrams(),
            final(self).is_flushed() == old(self).is_flushed(),
    {
        self.config = config;
    }

    /// Records the roots that the index is built from.
    pub fn add_paths(&mut self, paths: Vec<Vec<u8>>)
        requires
            old(self).wf(),
        ensures
            final(self).wf(),
            final(self).roots() == old(self).roots() + byte_strings(paths@),
            final(self).file_names() == old(self).file_names(),
            final(self).file_trigrams() == old(self).file_trigrams(),
            final(self).is_flushed() == old(self).is_flushed(),
            final(self).limits() == old(self).limits(),
    {
        let mut p = paths;
        self.paths.append(&mut p);
        assert(byte_strings(self.paths@) =~= byte_strings(old(self).paths@) + byte_strings(paths@));
    }

    /// Adds a file under the next id, unless the writer was flushed, `name`
    /// does not sort after every name added, every id is taken, or
    /// `content` breaks a limit of `config`; then nothing changes.
    pub fn add_file(&mut self, name: Vec<u8>, content: &[u8]) -> (r: Result<u32, IndexError>)
        requires
            old(self).wf(),
        ensures
            final(self).wf(),
            final(self).limits() == old(self).limits(),
            final(self).roots() == old(self).roots(),
            final(self).is_flushed() == old(self).is_flushed(),
            final(self).file_trigrams().len() == final(self).file_names().len(),
            ({
                let n = old(self).file_names().len();
                if old(self).is_flushed() {
                    r == Err::<u32, IndexError>(IndexError::AlreadyFlushed)
                } else if n > 0 && !lex_lt(old(self).file_names()[n - 1], name@) {
                    r == Err::<u32, IndexError>(IndexError::OutOfOrder)
                } else if n == u32::MAX {
                    r == Err::<u32, IndexError>(IndexError::TooManyFiles)
                } else {
                    match extraction(content@, old(self).limits()) {
                        Err(e) => r == Err::<u32, IndexError>(IndexError::Skipped(e)),
                        Ok(s) => r == Ok::<u32, IndexError>(n as u32)
                            && final(self).file_names() == old(self).file_names().push(name@)
                            && final(self).file_trigrams() == old(self).file_trigrams().push(s),
                    }
                }
            }),
            r is Err ==> final(self).file_names() == old(self).file_names()
                && final(self).file_trigrams() == old(self).file_trigrams(),
    {
        let n = self.names.len();
        if self.flushed {
            return Err(IndexError::AlreadyFlushed);
        }
        if n > 0 {
            let c = compare_names(self.names[n - 1].as_slice(), name.as_slice());
            assert(self.file_names()[n - 1] == self.names@[n - 1]@);
            if c != -1 {
                return Err(IndexError::OutOfOrder);
            }
        }
        assert(n > 0 ==> lex_lt(byte_strings(self.names@)[n - 1], name@));
        if n as u64 == u32::MAX as u64 {
            return Err(IndexError::TooManyFiles);
        }
        let tris = match extract(content, &self.config) {
            Ok(v) => v,
            Err(e) => {
                return Err(IndexError::Skipped(e));
            },
        };
        let id = n as u32;
        let ghost set = tris@.to_set();
        let ghost keys0 = self.keys@;
        let mut j: usize = 0;
        while j < tris.len()
            invariant
                j <= tris@.len(),
                n == self.names@.len(),
                id == n,
                n < u32::MAX,
                self.keys@.len() >= keys0.len(),
                forall|k: int| 0 <= k < keys0.len() ==> self.keys@[k] == keys0[k],
                forall|k: int|
                    keys0.len() <= k < self.keys@.len() ==> key_id(#[trigger] self.keys@[k]) == id
                        && set.contains(key_tri(self.keys@[k])),
                forall|m: int| 0 <= m < j ==> self.keys@.contains(key(#[trigger] tris@[m], id)),
                set == tris@.to_set(),
                old(self).wf(),
                keys0 == old(self).keys@,
                self.names@ == old(self).names@,
                self.files@ == old(self).files@,
                self.paths@ == old(self).paths@,
                self.flushed == old(self).flushed,
                self.config == old(self).config,
            decreases tris@.len() - j,
        {
            let ghost before = self.keys@;
            let k = make_key(tris[j], id);
            self.keys.push(k);
            proof {
                assert(set.contains(tris@[j as int]));
                assert forall|m: int| 0 <= m < j + 1 implies self.keys@.contains(key(#[trigger] tris@[m], id)) by {
                    if m < j {
                        let w = choose|w: int| 0 <= w < before.len() && before[w] == key(tris@[m], id);
                        assert(self.keys@[w] == key(tris@[m], id));
                    } else {
                        assert(self.keys@[self.keys@.len() - 1] == key(tris@[m], id));
                    }
                }
            }
            j += 1;
        }
        let ghost names0 = self.names@;
        let ghost files0 = self.files@;
        self.names.push(name);
        self.files = Ghost(self.files@.push(set));
        proof {
            assert(byte_strings(self.names@) =~= byte_strings(names0).push(name@));
            assert forall|a: int, b: int| 0 <= a < b < byte_strings(self.names@).len() implies lex_lt(
                #[trigger] byte_strings(self.names@)[a],
                #[trigger] byte_strings(self.names@)[b],
            ) by {
                if b < n {
                    assert(byte_strings(self.names@)[a] == byte_strings(names0)[a]);
                    assert(byte_strings(self.names@)[b] == byte_strings(names0)[b]);
                    assert(lex_lt(byte_strings(names0)[a], byte_strings(names0)[b]));
                } else if a < n - 1 {
                    assert(lex_lt(byte_strings(names0)[a], byte_strings(names0)[n - 1]));
                    crate::names::lemma_lex_transitive(
                        byte_strings(names0)[a],
                        byte_strings(names0)[n - 1],
                        name@,
                    );
                }
            }
            assert forall|k: int| 0 <= k < self.keys@.len() implies key_id(#[trigger] self.keys@[k]) < self.names@.len()
                && self.files@[key_id(self.keys@[k]) as int].contains(key_tri(self.keys@[k])) by {
                if k < keys0.len() {
                    assert(self.keys@[k] == keys0[k]);
                }
            }
            assert forall|i: int, t: u32| 0 <= i < self.files@.len() && #[trigger] self.files@[i].contains(t)
                implies self.keys@.contains(key(t, i as u32)) by {
                if i < n {
                    assert(files0[i].contains(t));
                    let w = choose|w: int| 0 <= w < keys0.len() && keys0[w] == key(t, i as u32);
                    assert(self.keys@[w] == key(t, i as u32));
                } else {
                    assert(tris@.to_set().contains(t));
                    assert(tris@.contains(t));
                    let m = choose|m: int| 0 <= m < tris@.len() && tris@[m] == t;
                    assert(self.keys@.contains(key(tris@[m], id)));
                }
            }
        }
        Ok(id)
    }

    /// Turns what was added into an index; a second call fails.
    pub fn flush(&mut self) -> (r: Result<Index, IndexError>)
        requires
            old(self).wf(),
        ensures
            final(self).wf(),
            final(self).is_flushed(),
            old(self).file_trigrams().len() == old(self).file_names().len(),
            final(self).limits() == old(self).limits(),
            old(self).is_flushed() ==> r == Err::<Index, IndexError>(IndexError::AlreadyFlushed),
            !old(self).is_flushed() ==> match r {
                Ok(ix) => ix.wf() && ix.name_seq() == old(self).file_names() && byte_strings(ix.paths@)
                    == old(self).roots() && indexes(&ix, old(self).file_trigrams()),
                Err(_) => false,
            },
    {
        if self.flushed {
            return Err(IndexError::AlreadyFlushed);
        }
        let ghost files = self.files@;
        let ghost keys0 = self.keys@;
        let mut names: Vec<Vec<u8>> = Vec::new();
        let mut paths: Vec<Vec<u8>> = Vec::new();
        let mut keys: Vec<u64> = Vec::new();
        std::mem::swap(&mut names, &mut self.names);
        std::mem::swap(&mut paths, &mut self.paths);
        std::mem::swap(&mut keys, &mut self.keys);
        self.files = Ghost(Seq::empty());
        self.flushed = true;
        proof {
            assert(byte_strings(self.names@) =~= Seq::<Seq<u8>>::empty());
        }
        sort_keys(&mut keys);
        let postings = group_keys(&keys);
        let ix = Index { paths, names, postings };
        proof {
            broadcast use vstd::seq_lib::group_to_multiset_ensures;
            assert forall|x: u64| #[trigger] keys@.contains(x) <==> keys0.contains(x) by {
                if keys@.contains(x) {
                    assert(keys@.to_multiset().count(x) > 0);
                }
                if keys0.contains(x) {
                    assert(keys0.to_multiset().count(x) > 0);
                }
            }
            assert forall|k: int| 0 <= k < ix.postings@.len() implies ({
                let ids = #[trigger] ix.postings@[k].ids@;
                forall|m: int| 0 <= m < ids.len() ==> ids[m] < ix.names@.len()
            }) by {
                let ids = ix.postings@[k].ids@;
                assert forall|m: int| 0 <= m < ids.len() implies ids[m] < ix.names@.len() by {
                    assert(ids.contains(ids[m]));
                    assert(listed(ix.postings@, ix.postings@[k].trigram, ids[m]));
                    assert(keys0.contains(key(ix.postings@[k].trigram, ids[m])));
                    let w = choose|w: int| 0 <= w < keys0.len() && keys0[w] == key(ix.postings@[k].trigram, ids[m]);
                    lemma_key_parts(ix.postings@[k].trigram, ids[m]);
                }
            }
            assert forall|t: u32, id: u32| #[trigger] ix.list_of(t).contains(id) <==> (id < files.len()
                && files[id as int].contains(t)) by {
                lemma_key_parts(t, id);
                if ix.list_of(t).contains(id) {
                    let k = choose|k: int| 0 <= k < ix.postings@.len() && #[trigger] ix.postings@[k].trigram == t;
                    assert(listed(ix.postings@, t, id));
                    assert(keys0.contains(key(t, id)));
                    let w = choose|w: int| 0 <= w < keys0.len() && keys0[w] == key(t, id);
                }
                if id < files.len() && files[id as int].contains(t) {
                    assert(keys0.contains(key(t, id)));
                    assert(listed(ix.postings@, t, id));
                    let k = choose|k: int| 0 <= k < ix.postings@.len() && #[trigger] ix.postings@[k].trigram == t
                        && ix.postings@[k].ids@.contains(id);
                    assert(ix.has_trigram(t));
                    let k2 = choose|k2: int| 0 <= k2 < ix.postings@.len() && #[trigger] ix.postings@[k2].trigram == t;
                    if k2 != k {
                        assert(ix.postings@[k2].trigram != ix.postings@[k].trigram);
                    }
                }
            }
        }
        Ok(ix)
    }
}

} // verus!
