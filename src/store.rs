//! The model container: header fields, metadata, the tensor directory and a
//! lazily filled cache of decoded tensors (one slot per directory entry).
use vstd::prelude::*;

use crate::error::{GgufError, LoadFailure};
use crate::io::Reader;
use crate::parser::{
    get_kv_metadata, get_tensors_metadata, infos_model, kv_item, kv_model, repeat_at,
    tensor_info_item,
};
use crate::tensor_loader::{decodes_to, load_succeeds, load_tensor, loaded_at};
use crate::types::{Data, Tensor, TensorInfo, TensorModel, Value};

verus! {

/// A directory entry as plain values: name, dimensions, kind code, offset.
pub type InfoModel = (Seq<char>, Seq<u64>, u32, u64);

/// The first index of `dir` whose name is `name`, if any.
pub open spec fn first_named(dir: Seq<InfoModel>, name: Seq<char>) -> Option<int> {
    if exists|i: int| 0 <= i < dir.len() && dir[i].0 == name {
        Some(
            choose|i: int|
                0 <= i < dir.len() && dir[i].0 == name && forall|j: int|
                    0 <= j < i ==> dir[j].0 != name,
        )
    } else {
        None
    }
}

/// The last index of `kv` whose key is `key`, if any.
pub open spec fn last_keyed(kv: Seq<(Seq<char>, Value)>, key: Seq<char>) -> Option<int> {
    if exists|i: int| 0 <= i < kv.len() && kv[i].0 == key {
        Some(
            choose|i: int|
                0 <= i < kv.len() && kv[i].0 == key && forall|j: int|
                    i < j < kv.len() ==> kv[j].0 != key,
        )
    } else {
        None
    }
}

proof fn lemma_first_named(dir: Seq<InfoModel>, name: Seq<char>, i: int)
    requires
        0 <= i < dir.len(),
        dir[i].0 == name,
        forall|j: int| 0 <= j < i ==> dir[j].0 != name,
    ensures
        first_named(dir, name) == Some(i),
{
    assert(exists|k: int| 0 <= k < dir.len() && dir[k].0 == name);
    let k = choose|k: int|
        0 <= k < dir.len() && dir[k].0 == name && forall|j: int| 0 <= j < k ==> dir[j].0 != name;
    assert(0 <= i < dir.len() && dir[i].0 == name && forall|j: int|
        0 <= j < i ==> dir[j].0 != name);
    if k < i {
        assert(dir[k].0 != name);
    } else if k > i {
        assert(dir[i].0 != name);
    }
}

pub proof fn lemma_first_named_valid(dir: Seq<InfoModel>, name: Seq<char>)
    ensures
        first_named(dir, name) matches Some(k) ==> 0 <= k < dir.len() && dir[k].0 == name,
{
    if exists|i: int| 0 <= i < dir.len() && dir[i].0 == name {
        let i0 = choose|i: int| 0 <= i < dir.len() && dir[i].0 == name;
        lemma_least_named(dir, name, i0);
    }
}

proof fn lemma_least_named(dir: Seq<InfoModel>, name: Seq<char>, i: int)
    requires
        0 <= i < dir.len(),
        dir[i].0 == name,
    ensures
        exists|k: int|
            0 <= k < dir.len() && dir[k].0 == name && forall|j: int|
                0 <= j < k ==> dir[j].0 != name,
    decreases i,
{
    if exists|j: int| 0 <= j < i && dir[j].0 == name {
        let j = choose|j: int| 0 <= j < i && dir[j].0 == name;
        lemma_least_named(dir, name, j);
    } else {
        assert(0 <= i < dir.len() && dir[i].0 == name && forall|j: int|
            0 <= j < i ==> dir[j].0 != name);
    }
}

proof fn lemma_last_keyed(kv: Seq<(Seq<char>, Value)>, key: Seq<char>, i: int)
    requires
        0 <= i < kv.len(),
        kv[i].0 == key,
        forall|j: int| i < j < kv.len() ==> kv[j].0 != key,
    ensures
        last_keyed(kv, key) == Some(i),
{
    assert(exists|k: int| 0 <= k < kv.len() && kv[k].0 == key);
    let k = choose|k: int|
        0 <= k < kv.len() && kv[k].0 == key && forall|j: int| k < j < kv.len() ==> kv[j].0 != key;
    assert(0 <= i < kv.len() && kv[i].0 == key && forall|j: int|
        i < j < kv.len() ==> kv[j].0 != key);
    if k < i {
        assert(kv[i].0 != key);
    } else if k > i {
        assert(kv[k].0 != key);
    }
}

/// Number of filled slots.
pub open spec fn filled(c: Seq<Option<TensorModel>>) -> nat
    decreases c.len(),
{
    if c.len() == 0 {
        0
    } else {
        filled(c.drop_last()) + if c.last() is Some {
            1nat
        } else {
            0nat
        }
    }
}

/// A parsed container with its tensor cache.
#[derive(Debug)]
pub struct GGUFData {
    version: u32,
    nb_tensors: u64,
    nb_key_vals: u64,
    kv: Vec<(String, Data)>,
    tensors_metadata: Vec<TensorInfo>,
    tensors: Vec<Option<Tensor>>,
}

/// The outcome of `load_single_tensor(name)` on container `before` and a
/// reader `reader_before`: an unknown name fails and changes nothing; a
/// cached tensor succeeds and reads nothing; otherwise the entry is decoded
/// into its slot, or the call fails and the cache stays as it was.
pub open spec fn single_load(
    before: GGUFData,
    reader_before: Reader,
    name: Seq<char>,
    after: GGUFData,
    reader_after: Reader,
    r: Result<(), GgufError>,
) -> bool {
    &&& after.directory() == before.directory()
    &&& match first_named(before.directory(), name) {
        None => r is Err && (r->Err_0 matches GgufError::TensorNotFound { name: missing }
            && missing@ == name) && after == before,
        Some(i) => if before.cache()[i] is Some {
            r is Ok && after == before && reader_after == reader_before
        } else {
            &&& r is Ok <==> load_succeeds(reader_before, before.directory()[i])
            &&& r is Ok ==> after.cache() == before.cache().update(
                i,
                after.cache()[i],
            ) && (after.cache()[i] matches Some(t) && loaded_at(
                before.directory()[i],
                reader_before,
                reader_after,
                t,
            ))
            &&& r is Err ==> after == before
        },
    }
}

impl GGUFData {
    pub closed spec fn version_field(&self) -> u32 {
        self.version
    }

    pub closed spec fn tensor_count_field(&self) -> u64 {
        self.nb_tensors
    }

    pub closed spec fn kv_count_field(&self) -> u64 {
        self.nb_key_vals
    }

    /// The metadata entries, in file order.
    pub closed spec fn metadata(&self) -> Seq<(Seq<char>, Value)> {
        kv_model(self.kv@)
    }

    /// The tensor directory, in file order.
    pub closed spec fn directory(&self) -> Seq<InfoModel> {
        infos_model(self.tensors_metadata@)
    }

    /// The cache: slot `i` holds the decoded tensor of directory entry `i`,
    /// once loaded.
    pub closed spec fn cache(&self) -> Seq<Option<TensorModel>> {
        Seq::new(
            self.tensors@.len(),
            |i: int|
                match self.tensors@[i] {
                    Some(t) => Some(t@),
                    None => None,
                },
        )
    }

    pub closed spec fn wf(&self) -> bool {
        &&& self.tensors@.len() == self.tensors_metadata@.len()
        &&& forall|i: int|
            0 <= i < self.tensors_metadata@.len() ==> (#[trigger] self.tensors_metadata@[i]).n_dimensions
                == self.tensors_metadata@[i].dimensions@.len()
    }

    /// A well-formed container has one cache slot per directory entry.
    pub proof fn lemma_slots_match_directory(&self)
        requires
            self.wf(),
        ensures
            self.cache().len() == self.directory().len(),
    {
    }

    /// A container with an empty cache.
    pub fn new(
        version: u32,
        nb_tensors: u64,
        nb_key_vals: u64,
        kv: Vec<(String, Data)>,
        tensors_metadata: Vec<TensorInfo>,
    ) -> (r: GGUFData)
        requires
            forall|i: int|
                0 <= i < tensors_metadata@.len() ==> (#[trigger] tensors_metadata@[i]).n_dimensions
                    == tensors_metadata@[i].dimensions@.len(),
        ensures
            r.wf(),
            r.version_field() == version,
            r.tensor_count_field() == nb_tensors,
            r.kv_count_field() == nb_key_vals,
            r.metadata() == kv_model(kv@),
            r.directory() == infos_model(tensors_metadata@),
            r.cache().len() == tensors_metadata@.len(),
            forall|i: int| 0 <= i < r.cache().len() ==> r.cache()[i] is None,
    {
        let mut tensors: Vec<Option<Tensor>> = Vec::new();
        let mut i: usize = 0;
        while i < tensors_metadata.len()
            invariant
                i <= tensors_metadata@.len(),
                tensors@.len() == i,
                forall|j: int| 0 <= j < i ==> tensors@[j] is None,
            decreases tensors_metadata@.len() - i,
        {
            tensors.push(None);
            i = i + 1;
        }
        GGUFData { version, nb_tensors, nb_key_vals, kv, tensors_metadata, tensors }
    }

    /// The index of the first directory entry named `name`.
    pub fn find_tensor(&self, name: &str) -> (r: Option<usize>)
        requires
            self.wf(),
        ensures
            match r {
                Some(i) => first_named(self.directory(), name@) == Some(i as int) && i
                    < self.directory().len() && i < self.cache().len(),
                None => first_named(self.directory(), name@) is None,
            },
    {
        let wanted: String = name.to_owned();
        let mut i: usize = 0;
        while i < self.tensors_metadata.len()
            invariant
                self.wf(),
                i <= self.tensors_metadata@.len(),
                wanted@ == name@,
                forall|j: int| 0 <= j < i ==> self.directory()[j].0 != name@,
            decreases self.tensors_metadata@.len() - i,
        {
            if self.tensors_metadata[i].name == wanted {
                proof {
                    lemma_first_named(self.directory(), name@, i as int);
                }
                return Some(i);
            }
            i = i + 1;
        }
        None
    }

    /// The cached tensor named `name`, if it is loaded; never decodes.
    pub fn get_tensor(&self, name: &str) -> (r: Option<&Tensor>)
        requires
            self.wf(),
        ensures
            match first_named(self.directory(), name@) {
                Some(i) => match self.cache()[i] {
                    Some(t) => r is Some && r->Some_0@ == t,
                    None => r is None,
                },
                None => r is None,
            },
    {
        match self.find_tensor(name) {
            Some(i) => match &self.tensors[i] {
                Some(t) => Some(t),
                None => None,
            },
            None => None,
        }
    }

    /// Decodes the tensor named `tensor_name` into the cache, unless it is
    /// there already: then nothing is read.
    pub fn load_single_tensor(&mut self, reader: &mut Reader, tensor_name: &str) -> (r: Result<
        (),
        GgufError,
    >)
        requires
            old(self).wf(),
            old(reader).wf(),
        ensures
            final(self).wf(),
            final(reader).same_window(old(reader)),
            final(self).directory() == old(self).directory(),
            final(self).metadata() == old(self).metadata(),
            final(self).cache().len() == old(self).cache().len(),
            single_load(*old(self), *old(reader), tensor_name@, *final(self), *final(reader), r),
    {
        let idx = match self.find_tensor(tensor_name) {
            Some(i) => i,
            None => {
                return Err(GgufError::TensorNotFound { name: tensor_name.to_owned() });
            },
        };
        proof {
            lemma_first_named_valid(self.directory(), tensor_name@);
        }
        if self.tensors[idx].is_some() {
            return Ok(());
        }
        let tensor = load_tensor(reader, &self.tensors_metadata[idx])?;
        self.tensors.set(idx, Some(tensor));
        proof {
            assert(self.cache() =~= old(self).cache().update(idx as int, self.cache()[idx as int]));
        }
        Ok(())
    }

    /// Number of cached tensors.
    pub fn num_tensors(&self) -> (r: usize)
        ensures
            r == filled(self.cache()),
    {
        let mut count: usize = 0;
        let mut i: usize = 0;
        while i < self.tensors.len()
            invariant
                i <= self.tensors@.len(),
                count == filled(self.cache().subrange(0, i as int)),
                count <= i,
            decreases self.tensors@.len() - i,
        {
            proof {
                assert(self.cache().subrange(0, i + 1).drop_last() =~= self.cache().subrange(
                    0,
                    i as int,
                ));
            }
            if self.tensors[i].is_some() {
                count = count + 1;
            }
            i = i + 1;
        }
        proof {
            assert(self.cache().subrange(0, i as int) =~= self.cache());
        }
        count
    }

    /// The tensor directory.
    pub fn tensors_metadata(&self) -> (r: &[TensorInfo])
        ensures
            infos_model(r@) == self.directory(),
    {
        self.tensors_metadata.as_slice()
    }

    /// The value of metadata key `key` (its last entry, when repeated).
    pub fn get_metadata(&self, key: &str) -> (r: Option<&Data>)
        ensures
            match last_keyed(self.metadata(), key@) {
                Some(i) => r is Some && r->Some_0.model() == self.metadata()[i].1,
                None => r is None,
            },
    {
        let wanted: String = key.to_owned();
        let mut i: usize = self.kv.len();
        while i > 0
            invariant
                i <= self.kv@.len(),
                wanted@ == key@,
                forall|j: int| i <= j < self.kv@.len() ==> self.metadata()[j].0 != key@,
            decreases i,
        {
            i = i - 1;
            if self.kv[i].0 == wanted {
                proof {
                    lemma_last_keyed(self.metadata(), key@, i as int);
                }
                return Some(&self.kv[i].1);
            }
        }
        None
    }

    /// The key of every metadata entry, in file order; a key repeated in the
    /// file is listed once per entry.
    pub fn metadata_keys(&self) -> (r: Vec<&String>)
        ensures
            r@.len() == self.metadata().len(),
            forall|i: int| 0 <= i < r@.len() ==> (#[trigger] r@[i])@ == self.metadata()[i].0,
    {
        let mut keys: Vec<&String> = Vec::new();
        let mut i: usize = 0;
        while i < self.kv.len()
            invariant
                i <= self.kv@.len(),
                keys@.len() == i,
                forall|j: int| 0 <= j < i ==> (#[trigger] keys@[j])@ == self.metadata()[j].0,
            decreases self.kv@.len() - i,
        {
            keys.push(&self.kv[i].0);
            i = i + 1;
        }
        keys
    }
}

/// The failure kind of a single-tensor decode error.
pub open spec fn failure_kind(e: GgufError) -> LoadFailure {
    match e {
        GgufError::TensorOffsetOutOfRange { .. } => LoadFailure::SeekOutOfRange,
        GgufError::UnsupportedTensorType { .. } => LoadFailure::UnsupportedType,
        GgufError::TensorTooLarge { .. } => LoadFailure::TooLarge,
        _ => LoadFailure::Truncated,
    }
}

fn failure_of(e: &GgufError) -> (r: LoadFailure)
    ensures
        r == failure_kind(*e),
{
    match e {
        GgufError::TensorOffsetOutOfRange { .. } => LoadFailure::SeekOutOfRange,
        GgufError::UnsupportedTensorType { .. } => LoadFailure::UnsupportedType,
        GgufError::TensorTooLarge { .. } => LoadFailure::TooLarge,
        _ => LoadFailure::Truncated,
    }
}

impl GGUFData {
    /// Decodes every directory entry, in directory order, into the cache.
    /// Stops at the first entry that fails, reporting its 1-based position;
    /// the entries before it stay cached.
    pub fn load_tensors(&mut self, reader: &mut Reader) -> (r: Result<(), GgufError>)
        requires
            old(self).wf(),
            old(reader).wf(),
        ensures
            final(self).wf(),
            final(reader).wf(),
            final(reader).same_window(old(reader)),
            final(self).directory() == old(self).directory(),
            final(self).metadata() == old(self).metadata(),
            final(self).cache().len() == old(self).cache().len(),
            r is Ok <==> forall|i: int|
                0 <= i < old(self).directory().len() ==> load_succeeds(
                    *old(reader),
                    #[trigger] old(self).directory()[i],
                ),
            r is Ok ==> forall|i: int|
                0 <= i < old(self).directory().len() ==> (#[trigger] final(self).cache()[i] matches Some(t)
                    && decodes_to(
                    old(self).directory()[i],
                    old(reader).bytes_from(old(self).directory()[i].3 as nat),
                    t,
                )),
            r is Err ==> (r->Err_0 matches GgufError::TensorLoad { index, total, name, offset, type_id, cause }
                && total == old(self).directory().len() && 1 <= index <= total && name@ == old(self).directory()[index - 1].0
                && offset == old(self).directory()[index - 1].3 && type_id == old(self).directory()[index - 1].2
                && !load_succeeds(*old(reader), old(self).directory()[index - 1])
                && (forall|i: int| 0 <= i < index - 1 ==> load_succeeds(*old(reader), #[trigger] old(self).directory()[i]))
                && (forall|i: int| 0 <= i < index - 1 ==> (#[trigger] final(self).cache()[i] matches Some(t)
                    && decodes_to(old(self).directory()[i], old(reader).bytes_from(old(self).directory()[i].3 as nat), t)))
                && (forall|i: int| index - 1 <= i < final(self).cache().len() ==> #[trigger] final(self).cache()[i] == old(self).cache()[i])),
    {
        let total = self.tensors_metadata.len();
        let mut idx: usize = 0;
        while idx < total
            invariant
                self.wf(),
                reader.wf(),
                reader.same_window(old(reader)),
                total == self.tensors_metadata@.len(),
                self.directory() == old(self).directory(),
                self.metadata() == old(self).metadata(),
                self.tensors_metadata@ == old(self).tensors_metadata@,
                self.cache().len() == old(self).cache().len(),
                idx <= total,
                forall|i: int| 0 <= i < idx ==> load_succeeds(*old(reader), #[trigger] old(self).directory()[i]),
                forall|i: int| 0 <= i < idx ==> (#[trigger] self.cache()[i] matches Some(t)
                    && decodes_to(old(self).directory()[i], old(reader).bytes_from(old(self).directory()[i].3 as nat), t)),
                forall|i: int| idx <= i < self.cache().len() ==> #[trigger] self.cache()[i] == old(self).cache()[i],
            decreases total - idx,
        {
            match load_tensor(reader, &self.tensors_metadata[idx]) {
                Ok(t) => {
                    let ghost prev = self.cache();
                    self.tensors.set(idx, Some(t));
                    proof {
                        assert(self.cache() =~= prev.update(idx as int, Some(t@)));
                    }
                    idx = idx + 1;
                },
                Err(e) => {
                    proof {
                        assert(self.directory()[idx as int] == self.tensors_metadata@[idx as int].model());
                        assert(!load_succeeds(*old(reader), old(self).directory()[idx as int]));
                    }
                    let info = &self.tensors_metadata[idx];
                    return Err(
                        GgufError::TensorLoad {
                            index: idx + 1,
                            total,
                            name: info.name.clone(),
                            offset: info.offset,
                            type_id: info.type_id,
                            cause: failure_of(&e),
                        },
                    );
                },
            }
        }
        Ok(())
    }
}

/// The container encoded at the front of `s`: version, tensor count,
/// metadata count, metadata entries, directory, and the bytes it takes.
pub open spec fn container_at(s: Seq<u8>) -> Option<(u32, u64, u64, Seq<(Seq<char>, Value)>, Seq<InfoModel>, nat)> {
    if s.len() < 24 || !has_magic(s) {
        None
    } else {
        let version = crate::io::le_value(s.subrange(4, 8)) as u32;
        let tc = crate::io::le_value(s.subrange(8, 16)) as u64;
        let kc = crate::io::le_value(s.subrange(16, 24)) as u64;
        let t = s.subrange(24, s.len() as int);
        match repeat_at(kv_item(), t, kc as nat) {
            Some((kv, a)) => match repeat_at(tensor_info_item(), t.subrange(a as int, t.len() as int), tc as nat) {
                Some((dir, b)) => Some((version, tc, kc, kv, dir, 24 + a + b)),
                None => None,
            },
            None => None,
        }
    }
}

/// The four bytes of the format tag, "GGUF".
pub open spec fn has_magic(s: Seq<u8>) -> bool {
    s.len() >= 4 && s[0] == 0x47 && s[1] == 0x47 && s[2] == 0x55 && s[3] == 0x46
}

/// Parses the header, metadata and directory of a container at the cursor.
/// The tensor payloads are not read; the cache starts empty.
pub fn parse_gguf(reader: &mut Reader) -> (r: Result<GGUFData, GgufError>)
    requires
        old(reader).wf(),
    ensures
        final(reader).wf(),
        final(reader).same_window(old(reader)),
        r is Ok <==> container_at(old(reader).rest()) is Some,
        r is Ok ==> ({
            let c = container_at(old(reader).rest())->Some_0;
            let g = r->Ok_0;
            &&& g.wf()
            &&& g.version_field() == c.0
            &&& g.tensor_count_field() == c.1
            &&& g.kv_count_field() == c.2
            &&& g.metadata() == c.3
            &&& g.directory() == c.4
            &&& g.directory().len() == g.tensor_count_field()
            &&& g.metadata().len() == g.kv_count_field()
            &&& g.cache().len() == g.directory().len()
            &&& forall|i: int| 0 <= i < g.cache().len() ==> g.cache()[i] is None
            &&& old(reader).advanced(final(reader), c.5)
        }),
        old(reader).rest().len() >= 4 && !has_magic(old(reader).rest()) ==> r == Err::<GGUFData, GgufError>(GgufError::BadMagic),
{
    let ghost s = reader.rest();
    let magic = reader.read_bytes(4)?;
    if !(magic[0] == 0x47 && magic[1] == 0x47 && magic[2] == 0x55 && magic[3] == 0x46) {
        return Err(GgufError::BadMagic);
    }
    proof {
        assert(reader.rest() =~= s.subrange(4, s.len() as int));
    }
    let version = reader.read_u32()?;
    proof {
        assert(s.subrange(4, s.len() as int).subrange(0, 4) =~= s.subrange(4, 8));
        assert(reader.rest() =~= s.subrange(8, s.len() as int));
    }
    let tensor_count = reader.read_u64()?;
    proof {
        assert(s.subrange(8, s.len() as int).subrange(0, 8) =~= s.subrange(8, 16));
        assert(reader.rest() =~= s.subrange(16, s.len() as int));
    }
    let metadata_count = reader.read_u64()?;
    proof {
        assert(s.subrange(16, s.len() as int).subrange(0, 8) =~= s.subrange(16, 24));
        assert(reader.rest() =~= s.subrange(24, s.len() as int));
    }
    let ghost t = reader.rest();
    let kv = get_kv_metadata(reader, metadata_count)?;
    proof {
        let a = repeat_at(kv_item(), t, metadata_count as nat)->Some_0.1;
        assert(reader.rest() =~= t.subrange(a as int, t.len() as int));
    }
    let tensors_metadata = get_tensors_metadata(reader, tensor_count)?;
    Ok(GGUFData::new(version, tensor_count, metadata_count, kv, tensors_metadata))
}

/// Loading a tensor by name decodes it at most once: after one successful
/// load, loading the same name again succeeds, reads nothing and leaves the
/// container unchanged.
pub proof fn load_single_is_idempotent(
    g0: GGUFData,
    reader0: Reader,
    name: Seq<char>,
    g1: GGUFData,
    reader1: Reader,
    r1: Result<(), GgufError>,
    g2: GGUFData,
    reader2: Reader,
    r2: Result<(), GgufError>,
)
    requires
        single_load(g0, reader0, name, g1, reader1, r1),
        r1 is Ok,
        single_load(g1, reader1, name, g2, reader2, r2),
    ensures
        r2 is Ok,
        g2 == g1,
        reader2 == reader1,
{
}

/// A container cut anywhere before the end of its directory does not parse,
/// so no partial directory is ever produced; cut anywhere after, it parses
/// to the same header, metadata and directory.
pub proof fn truncated_container_fails(s: Seq<u8>, k: nat)
    requires
        k <= s.len(),
    ensures
        match container_at(s) {
            Some(c) => if k < c.5 {
                container_at(s.subrange(0, k as int)) is None
            } else {
                container_at(s.subrange(0, k as int)) == Some(c)
            },
            None => true,
        },
{
    let p = s.subrange(0, k as int);
    if k >= 24 && s.len() >= 24 {
        crate::parser::lemma_le_prefix_cut(s, k as int, 4, 8);
        crate::parser::lemma_le_prefix_cut(s, k as int, 8, 16);
        crate::parser::lemma_le_prefix_cut(s, k as int, 16, 24);
        let kc = crate::io::le_value(s.subrange(16, 24)) as u64;
        let tc = crate::io::le_value(s.subrange(8, 16)) as u64;
        let t = s.subrange(24, s.len() as int);
        let pt = p.subrange(24, p.len() as int);
        assert(pt =~= t.subrange(0, k - 24));
        crate::parser::lemma_entries_prefix(t, kc as nat, (k - 24) as nat);
        if let Some((kv, a)) = repeat_at(kv_item(), t, kc as nat) {
            crate::parser::lemma_repeat_len(kv_item(), t, kc as nat);
            if k - 24 >= a {
                let t2 = t.subrange(a as int, t.len() as int);
                let pt2 = pt.subrange(a as int, pt.len() as int);
                assert(pt2 =~= t2.subrange(0, k - 24 - a));
                crate::parser::lemma_entries_prefix(t2, tc as nat, (k - 24 - a) as nat);
            }
        }
    }
}

} // verus!
