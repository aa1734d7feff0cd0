//! Reading and rewriting slots of a binary held in memory.
//!
//! An `Embedder` is built over the file's bytes, discovers the slot
//! directory, stages new payloads with `embed`, and applies every staged
//! payload to the bytes with `finish`.  A name may own several slots (one per
//! archive member or fat slice): `embed` stages all of them, the read calls
//! yield all of them in discovery order, and every slot of the name must have
//! the requested type's size or nothing is staged at all.

use vstd::prelude::*;

use crate::decode::{DecodeLinkstore, TryDecodeLinkstore, TryDecodeLinkstoreArrayError};
use crate::directory::{Linkstore, LinkstoreBytes};
use crate::discover::{discover, slots_model, spec_discover, SpecDiscoverErr};
use crate::encode::EncodeLinkstore;
use crate::iter::{EmbeddedValueIterator, TryEmbeddedValueIterator};
use crate::Error;

verus! {

/// The slots carrying the given name, in discovery order.
pub open spec fn matching_slots(slots: Seq<Linkstore>, name: Seq<char>) -> Seq<Linkstore>
    decreases slots.len(),
{
    if slots.len() == 0 {
        Seq::empty()
    } else {
        let rest = matching_slots(slots.skip(1), name);
        if slots[0].name@ == name {
            seq![slots[0]] + rest
        } else {
            rest
        }
    }
}

pub proof fn lemma_matching_push(slots: Seq<Linkstore>, name: Seq<char>, x: Linkstore)
    ensures
        matching_slots(slots.push(x), name) == if x.name@ == name {
            matching_slots(slots, name).push(x)
        } else {
            matching_slots(slots, name)
        },
    decreases slots.len(),
{
    reveal_with_fuel(matching_slots, 2);
    assert(slots.push(x).len() == slots.len() + 1);
    if slots.len() == 0 {
        assert(slots.push(x)[0] == x);
        assert(slots.push(x).skip(1) =~= Seq::<Linkstore>::empty());
        if x.name@ == name {
            assert(matching_slots(slots.push(x), name) =~= matching_slots(slots, name).push(x));
        }
    } else {
        assert(slots.push(x)[0] == slots[0]);
        assert(slots.push(x).skip(1) =~= slots.skip(1).push(x));
        lemma_matching_push(slots.skip(1), name, x);
        if x.name@ == name {
            assert(matching_slots(slots.push(x), name) =~= matching_slots(slots, name).push(x));
        }
    }
}

/// The value a slot's current payload decodes to, under the slot's
/// endianness.
pub open spec fn decoded_value<T: DecodeLinkstore>(s: Linkstore) -> T {
    if s.little_endian {
        T::spec_from_le(s.bytes.bytes())
    } else {
        T::spec_from_be(s.bytes.bytes())
    }
}

/// The fallible decode relation of a slot's current payload, under the slot's
/// endianness.
pub open spec fn try_decoded_value<T: TryDecodeLinkstore>(
    s: Linkstore,
    r: Result<T, TryDecodeLinkstoreArrayError>,
) -> bool {
    if s.little_endian {
        T::le_decoded(s.bytes.bytes(), r)
    } else {
        T::be_decoded(s.bytes.bytes(), r)
    }
}

/// How `embed` rewrites one slot: everything kept but the payload, which is
/// staged to the value's encoding under the slot's endianness.
pub open spec fn slot_staged(prev: Linkstore, cur: Linkstore, le: Seq<u8>, be: Seq<u8>) -> bool {
    &&& cur.name@ == prev.name@
    &&& cur.offset == prev.offset
    &&& cur.size == prev.size
    &&& cur.little_endian == prev.little_endian
    &&& cur.bytes.is_set()
    &&& cur.bytes.bytes() == if prev.little_endian {
        le
    } else {
        be
    }
}

/// Whether some staged slot's payload range covers file offset `i`.
pub open spec fn covered_by_staged(slots: Seq<Linkstore>, i: int) -> bool {
    exists|k: int|
        0 <= k < slots.len() && (#[trigger] slots[k]).bytes.is_set() && slots[k].offset <= i
            < slots[k].offset + slots[k].size
}

/// The file bytes after one slot is flushed: a staged, in-bounds payload
/// replaces its range, anything else leaves the file as it is.
pub open spec fn apply_slot(data: Seq<u8>, s: Linkstore) -> Seq<u8> {
    if s.bytes.is_set() && s.offset as nat + s.size as nat <= data.len() && s.bytes.bytes().len()
        == s.size as nat {
        data.take(s.offset as int) + s.bytes.bytes() + data.skip(s.offset as int + s.size as int)
    } else {
        data
    }
}

/// The file bytes after every slot is flushed, in directory order.
pub open spec fn apply_slots(data: Seq<u8>, slots: Seq<Linkstore>) -> Seq<u8>
    decreases slots.len(),
{
    if slots.len() == 0 {
        data
    } else {
        apply_slots(apply_slot(data, slots[0]), slots.skip(1))
    }
}

pub proof fn lemma_apply_slot_len(data: Seq<u8>, s: Linkstore)
    ensures
        apply_slot(data, s).len() == data.len(),
{
    if s.bytes.is_set() && s.offset as nat + s.size as nat <= data.len() && s.bytes.bytes().len()
        == s.size as nat {
        assert(apply_slot(data, s).len() == s.offset as int + s.size as int + (data.len()
            - s.offset - s.size));
    }
}

pub proof fn lemma_apply_slots_push(data: Seq<u8>, slots: Seq<Linkstore>, x: Linkstore)
    ensures
        apply_slots(data, slots.push(x)) == apply_slot(apply_slots(data, slots), x),
    decreases slots.len(),
{
    reveal_with_fuel(apply_slots, 2);
    assert(slots.push(x).len() == slots.len() + 1);
    if slots.len() == 0 {
        assert(slots.push(x)[0] == x);
        assert(slots.push(x).skip(1) =~= Seq::<Linkstore>::empty());
    } else {
        assert(slots.push(x)[0] == slots[0]);
        assert(slots.push(x).skip(1) =~= slots.skip(1).push(x));
        lemma_apply_slots_push(apply_slot(data, slots[0]), slots.skip(1), x);
    }
}

/// Byte-level minimality: flushing changes no byte outside the staged slots'
/// payload ranges, and never the file's length.
pub proof fn lemma_apply_slots_untouched(data: Seq<u8>, slots: Seq<Linkstore>)
    ensures
        apply_slots(data, slots).len() == data.len(),
        forall|i: int|
            0 <= i < data.len() && !covered_by_staged(slots, i) ==> apply_slots(data, slots)[i]
                == data[i],
    decreases slots.len(),
{
    if slots.len() > 0 {
        let d1 = apply_slot(data, slots[0]);
        lemma_apply_slot_len(data, slots[0]);
        lemma_apply_slots_untouched(d1, slots.skip(1));
        assert forall|i: int|
            0 <= i < data.len() && !covered_by_staged(slots, i) implies apply_slots(data, slots)[i]
            == data[i] by {
            assert(!covered_by_staged(slots.skip(1), i)) by {
                if covered_by_staged(slots.skip(1), i) {
                    let k = choose|k: int|
                        0 <= k < slots.skip(1).len() && (#[trigger] slots.skip(1)[k]).bytes.is_set()
                            && slots.skip(1)[k].offset <= i < slots.skip(1)[k].offset + slots.skip(
                            1,
                        )[k].size;
                    assert(slots[k + 1] == slots.skip(1)[k]);
                }
            }
            assert(d1[i] == data[i]) by {
                if slots[0].bytes.is_set() && slots[0].offset as nat + slots[0].size as nat
                    <= data.len() && slots[0].bytes.bytes().len() == slots[0].size as nat {
                    assert(!(slots[0].offset <= i < slots[0].offset + slots[0].size));
                }
            }
        }
    }
}

/// Reads and rewrites the slots of one binary, held in memory.  Staged
/// payloads touch the file bytes only when `finish` is called; dropping the
/// embedder instead abandons them.
pub struct Embedder {
    data: Vec<u8>,
    slots: Vec<Linkstore>,
}

impl Embedder {
    /// The file bytes the embedder was built over.
    pub closed spec fn data_view(&self) -> Seq<u8> {
        self.data@
    }

    /// The slot directory, in discovery order.
    pub closed spec fn slots_view(&self) -> Seq<Linkstore> {
        self.slots@
    }

    /// Every slot's payload range lies inside the file and its staged bytes
    /// fill the payload exactly.
    pub closed spec fn wf(&self) -> bool {
        forall|k: int|
            0 <= k < self.slots@.len() ==> (#[trigger] self.slots@[k]).wf(self.data@.len())
    }

    /// Builds an embedder over the bytes of a binary: recognises its format
    /// and discovers every slot, exactly as `spec_discover` says of the
    /// bytes.
    pub fn new(data: Vec<u8>) -> (r: Result<Embedder, Error>)
        ensures
            match spec_discover(data@, 0) {
                Ok(slots) => r matches Ok(em) && {
                    &&& em.data_view() == data@
                    &&& slots_model(em.slots_view(), slots)
                    &&& em.wf()
                },
                Err(SpecDiscoverErr::Goblin(m)) => r matches Err(e) && (e matches Error::Goblin(s)
                    && s@ == m),
                Err(SpecDiscoverErr::Unrecognised) => r matches Err(e) && e is Unrecognised,
                Err(SpecDiscoverErr::Decoding(e)) => r matches Err(e2) && e2 == e,
            },
    {
        let mut slots: Vec<Linkstore> = Vec::new();
        match discover(data.as_slice(), 0, &mut slots) {
            Err(e) => Err(e),
            Ok(()) => {
                proof {
                    assert(slots@.skip(0) =~= slots@);
                }
                Ok(Embedder { data, slots })
            },
        }
    }

    /// Checks that the name is present and that every slot of the name has
    /// the requested size; says which error the caller owes otherwise.
    fn size_check(&self, name: &String, tsize: u64, tsize_usize: usize) -> (r: Result<(), Error>)
        ensures
            match r {
                Ok(()) => (exists|k: int|
                    0 <= k < self.slots_view().len() && (#[trigger] self.slots_view()[k]).name@
                        == name@) && (forall|k: int|
                    0 <= k < self.slots_view().len() && (#[trigger] self.slots_view()[k]).name@
                        == name@ ==> self.slots_view()[k].size == tsize),
                Err(Error::NotPresent(n)) => n@ == name@ && (forall|k: int|
                    0 <= k < self.slots_view().len() ==> (#[trigger] self.slots_view()[k]).name@
                        != name@),
                Err(Error::MismatchedSize(found, expected)) => expected == tsize_usize && (exists|
                    k: int,
                |
                    0 <= k < self.slots_view().len() && (#[trigger] self.slots_view()[k]).name@
                        == name@ && self.slots_view()[k].size == found && found != tsize),
                _ => false,
            },
    {
        let n = self.slots.len();
        let mut found = false;
        let mut i: usize = 0;
        while i < n
            invariant
                0 <= i <= n,
                n == self.slots@.len(),
                found <==> exists|k: int|
                    0 <= k < i && (#[trigger] self.slots@[k]).name@ == name@,
                forall|k: int|
                    0 <= k < i && (#[trigger] self.slots@[k]).name@ == name@ ==> self.slots@[k].size
                        == tsize,
            decreases n - i,
        {
            let s = &self.slots[i];
            if s.name == *name {
                if s.size != tsize {
                    return Err(Error::MismatchedSize(s.size, tsize_usize));
                }
                found = true;
            }
            i = i + 1;
        }
        if found {
            Ok(())
        } else {
            Err(Error::NotPresent(name.clone()))
        }
    }

    /// Stages `value` into every slot of the given name.  Every such slot
    /// must have exactly the value's size, or nothing at all is staged and
    /// the mismatching size is reported; an unknown name reports
    /// `NotPresent`.  The value is encoded under each slot's own endianness.
    /// The file bytes themselves do not change before `finish`.
    pub fn embed<T: EncodeLinkstore>(&mut self, name: &str, value: &T) -> (r: Result<(), Error>)
        requires
            old(self).wf(),
            T::spec_size() <= usize::MAX as nat,
        ensures
            final(self).wf(),
            final(self).data_view() == old(self).data_view(),
            final(self).slots_view().len() == old(self).slots_view().len(),
            match r {
                Ok(()) => {
                    &&& exists|k: int|
                        0 <= k < old(self).slots_view().len() && (#[trigger] old(
                            self,
                        ).slots_view()[k]).name@ == name@
                    &&& forall|k: int|
                        0 <= k < old(self).slots_view().len() ==> {
                            if (#[trigger] old(self).slots_view()[k]).name@ == name@ {
                                old(self).slots_view()[k].size as nat == T::spec_size()
                                    && slot_staged(
                                    old(self).slots_view()[k],
                                    final(self).slots_view()[k],
                                    value.spec_le_bytes(),
                                    value.spec_be_bytes(),
                                )
                            } else {
                                final(self).slots_view()[k] == old(self).slots_view()[k]
                            }
                        }
                },
                Err(Error::NotPresent(n)) => n@ == name@ && final(self).slots_view() == old(
                    self,
                ).slots_view() && (forall|k: int|
                    0 <= k < old(self).slots_view().len() ==> (#[trigger] old(
                        self,
                    ).slots_view()[k]).name@ != name@),
                Err(Error::MismatchedSize(found, expected)) => expected as nat == T::spec_size()
                    && final(self).slots_view() == old(self).slots_view() && (exists|k: int|
                    0 <= k < old(self).slots_view().len() && (#[trigger] old(
                        self,
                    ).slots_view()[k]).name@ == name@ && old(self).slots_view()[k].size == found
                        && found as nat != T::spec_size()),
                _ => false,
            },
    {
        let name_owned: String = name.to_owned();
        let tsize_usize = T::byte_size();
        let tsize = tsize_usize as u64;
        match self.size_check(&name_owned, tsize, tsize_usize) {
            Err(e) => {
                return Err(e);
            },
            Ok(()) => {},
        }
        let n = self.slots.len();
        let mut i: usize = 0;
        while i < n
            invariant
                0 <= i <= n,
                n == self.slots@.len(),
                self.data@ == old(self).data_view(),
                self.slots@.len() == old(self).slots_view().len(),
                old(self).wf(),
                tsize as nat == T::spec_size(),
                forall|k: int|
                    0 <= k < self.slots@.len() && (#[trigger] old(self).slots_view()[k]).name@
                        == name_owned@ ==> old(self).slots_view()[k].size == tsize,
                forall|k: int|
                    i <= k < self.slots@.len() ==> (#[trigger] self.slots@[k]) == old(
                        self,
                    ).slots_view()[k],
                forall|k: int|
                    0 <= k < i ==> {
                        if (#[trigger] old(self).slots_view()[k]).name@ == name_owned@ {
                            slot_staged(
                                old(self).slots_view()[k],
                                self.slots@[k],
                                value.spec_le_bytes(),
                                value.spec_be_bytes(),
                            )
                        } else {
                            self.slots@[k] == old(self).slots_view()[k]
                        }
                    },
                forall|k: int|
                    0 <= k < self.slots@.len() ==> (#[trigger] self.slots@[k]).wf(
                        self.data@.len(),
                    ),
            decreases n - i,
        {
            let is_match = self.slots[i].name == name_owned;
            if is_match {
                let ghost prev_slots = self.slots@;
                let mut s = self.slots.remove(i);
                // The encoders provably return exactly the type's size, which
                // the size check matched against every slot of this name, so
                // the staged payload always fills the slot.
                let enc = if s.little_endian {
                    value.as_le_bytes()
                } else {
                    value.as_be_bytes()
                };
                proof {
                    value.lemma_encode_len();
                }
                s.bytes = LinkstoreBytes::Staged(enc.into_vec());
                let ghost s_snap = s;
                self.slots.insert(i, s);
                proof {
                    assert(self.slots@ =~= prev_slots.update(i as int, s_snap));
                }
            }
            i = i + 1;
        }
        Ok(())
    }

    /// Decodes the value of every slot of the given name, in discovery order.
    /// Every such slot must have exactly the type's size, or the mismatching
    /// size is reported; an unknown name reports `NotPresent`.
    pub fn read<T: EncodeLinkstore + DecodeLinkstore>(&self, name: &str) -> (r: Result<
        EmbeddedValueIterator<T>,
        Error,
    >)
        requires
            self.wf(),
            T::spec_size() <= usize::MAX as nat,
        ensures
            match r {
                Ok(it) => {
                    &&& matching_slots(self.slots_view(), name@).len() > 0
                    &&& forall|k: int|
                        0 <= k < self.slots_view().len() && (#[trigger] self.slots_view()[k]).name@
                            == name@ ==> self.slots_view()[k].size as nat == T::spec_size()
                    &&& it.remaining().len() == matching_slots(self.slots_view(), name@).len()
                    &&& forall|j: int|
                        0 <= j < it.remaining().len() ==> it.remaining()[j] == decoded_value::<T>(
                            #[trigger] matching_slots(self.slots_view(), name@)[j],
                        )
                },
                Err(Error::NotPresent(n)) => n@ == name@ && matching_slots(
                    self.slots_view(),
                    name@,
                ).len() == 0,
                Err(Error::MismatchedSize(found, expected)) => expected as nat == T::spec_size()
                    && (exists|k: int|
                    0 <= k < self.slots_view().len() && (#[trigger] self.slots_view()[k]).name@
                        == name@ && self.slots_view()[k].size == found && found as nat
                        != T::spec_size()),
                _ => false,
            },
    {
        let name_owned: String = name.to_owned();
        let tsize_usize = T::byte_size();
        let tsize = tsize_usize as u64;
        proof {
            lemma_matching_all(self.slots@, name_owned@);
        }
        match self.size_check(&name_owned, tsize, tsize_usize) {
            Err(e) => {
                return Err(e);
            },
            Ok(()) => {},
        }
        proof {
            assert(matching_slots(self.slots@, name_owned@).len() > 0);
        }
        let n = self.slots.len();
        let mut values: Vec<T> = Vec::new();
        let mut i: usize = 0;
        proof {
            assert(self.slots@.take(0) =~= Seq::<Linkstore>::empty());
        }
        while i < n
            invariant
                0 <= i <= n,
                n == self.slots@.len(),
                self.wf(),
                tsize as nat == T::spec_size(),
                name_owned@ == name@,
                forall|k: int|
                    0 <= k < self.slots@.len() && (#[trigger] self.slots@[k]).name@ == name@
                        ==> self.slots@[k].size == tsize,
                values@.len() == matching_slots(self.slots@.take(i as int), name@).len(),
                forall|j: int|
                    0 <= j < values@.len() ==> values@[j] == decoded_value::<T>(
                        #[trigger] matching_slots(self.slots@.take(i as int), name@)[j],
                    ),
            decreases n - i,
        {
            proof {
                lemma_matching_push(self.slots@.take(i as int), name@, self.slots@[i as int]);
                assert(self.slots@.take(i as int).push(self.slots@[i as int]) =~= self.slots@.take(
                    i as int + 1,
                ));
            }
            let s = &self.slots[i];
            if s.name == name_owned {
                let bytes = s.bytes.as_slice();
                let v = if s.little_endian {
                    T::from_le_bytes(bytes)
                } else {
                    T::from_be_bytes(bytes)
                };
                values.push(v);
            }
            i = i + 1;
        }
        proof {
            assert(self.slots@.take(n as int) =~= self.slots@);
        }
        Ok(EmbeddedValueIterator::new(values))
    }

    /// Fallibly decodes the value of every slot of the given name, in
    /// discovery order, under the same size rule as `read`.
    pub fn try_read<T: EncodeLinkstore + TryDecodeLinkstore>(&self, name: &str) -> (r: Result<
        TryEmbeddedValueIterator<T>,
        Error,
    >)
        requires
            self.wf(),
            T::spec_size() <= usize::MAX as nat,
        ensures
            match r {
                Ok(it) => {
                    &&& matching_slots(self.slots_view(), name@).len() > 0
                    &&& forall|k: int|
                        0 <= k < self.slots_view().len() && (#[trigger] self.slots_view()[k]).name@
                            == name@ ==> self.slots_view()[k].size as nat == T::spec_size()
                    &&& it.remaining().len() == matching_slots(self.slots_view(), name@).len()
                    &&& forall|j: int|
                        0 <= j < it.remaining().len() ==> try_decoded_value::<T>(
                            #[trigger] matching_slots(self.slots_view(), name@)[j],
                            it.remaining()[j],
                        )
                },
                Err(Error::NotPresent(n)) => n@ == name@ && matching_slots(
                    self.slots_view(),
                    name@,
                ).len() == 0,
                Err(Error::MismatchedSize(found, expected)) => expected as nat == T::spec_size()
                    && (exists|k: int|
                    0 <= k < self.slots_view().len() && (#[trigger] self.slots_view()[k]).name@
                        == name@ && self.slots_view()[k].size == found && found as nat
                        != T::spec_size()),
                _ => false,
            },
    {
        let name_owned: String = name.to_owned();
        let tsize_usize = T::byte_size();
        let tsize = tsize_usize as u64;
        proof {
            lemma_matching_all(self.slots@, name_owned@);
        }
        match self.size_check(&name_owned, tsize, tsize_usize) {
            Err(e) => {
                return Err(e);
            },
            Ok(()) => {},
        }
        proof {
            assert(matching_slots(self.slots@, name_owned@).len() > 0);
        }
        let n = self.slots.len();
        let mut values: Vec<Result<T, TryDecodeLinkstoreArrayError>> = Vec::new();
        let mut i: usize = 0;
        proof {
            assert(self.slots@.take(0) =~= Seq::<Linkstore>::empty());
        }
        while i < n
            invariant
                0 <= i <= n,
                n == self.slots@.len(),
                self.wf(),
                T::spec_size() <= usize::MAX as nat,
                tsize as nat == T::spec_size(),
                name_owned@ == name@,
                values@.len() == matching_slots(self.slots@.take(i as int), name@).len(),
                forall|j: int|
                    0 <= j < values@.len() ==> try_decoded_value::<T>(
                        #[trigger] matching_slots(self.slots@.take(i as int), name@)[j],
                        values@[j],
                    ),
            decreases n - i,
        {
            proof {
                lemma_matching_push(self.slots@.take(i as int), name@, self.slots@[i as int]);
                assert(self.slots@.take(i as int).push(self.slots@[i as int]) =~= self.slots@.take(
                    i as int + 1,
                ));
            }
            let s = &self.slots[i];
            if s.name == name_owned {
                let bytes = s.bytes.as_slice();
                let v = if s.little_endian {
                    T::try_from_le_bytes(bytes)
                } else {
                    T::try_from_be_bytes(bytes)
                };
                values.push(v);
            }
            i = i + 1;
        }
        proof {
            assert(self.slots@.take(n as int) =~= self.slots@);
        }
        Ok(TryEmbeddedValueIterator::new(values))
    }

    /// Consumes the embedder and applies every staged payload to the file
    /// bytes, exactly as `apply_slots` says.  The length never changes, and a
    /// byte covered by no staged slot never changes: untouched slots and all
    /// non-slot bytes stay as they were.
    pub fn finish(self) -> (r: Vec<u8>)
        requires
            self.wf(),
        ensures
            r@ == apply_slots(self.data_view(), self.slots_view()),
            r@.len() == self.data_view().len(),
            forall|i: int|
                0 <= i < self.data_view().len() && !covered_by_staged(self.slots_view(), i)
                    ==> r@[i] == self.data_view()[i],
    {
        let Embedder { mut data, slots } = self;
        let total = data.len();
        let ghost orig = data@;
        let ghost all = slots@;
        let n = slots.len();
        let mut i: usize = 0;
        proof {
            assert(all.take(0) =~= Seq::<Linkstore>::empty());
        }
        while i < n
            invariant
                0 <= i <= n,
                n == all.len(),
                all == slots@,
                data@ == apply_slots(orig, all.take(i as int)),
                data@.len() == orig.len(),
                orig.len() <= usize::MAX,
                forall|k: int| 0 <= k < all.len() ==> (#[trigger] all[k]).wf(orig.len()),
            decreases n - i,
        {
            proof {
                lemma_apply_slots_push(orig, all.take(i as int), all[i as int]);
                assert(all.take(i as int).push(all[i as int]) =~= all.take(i as int + 1));
            }
            let s = &slots[i];
            match &s.bytes {
                LinkstoreBytes::Unchanged(_) => {
                    proof {
                        assert(apply_slot(data@, all[i as int]) == data@);
                    }
                },
                LinkstoreBytes::Staged(bytes) => {
                    proof {
                        assert(all[i as int].wf(orig.len()));
                        assert(all[i as int].bytes.is_set());
                        assert(all[i as int].bytes.bytes() == bytes@);
                    }
                    let off = s.offset as usize;
                    let size = s.size as usize;
                    let ghost before = data@;
                    let mut j: usize = 0;
                    while j < size
                        invariant
                            0 <= j <= size,
                            off + size <= data@.len(),
                            data@.len() <= usize::MAX,
                            bytes@.len() == size,
                            data@.len() == before.len(),
                            forall|p: int| 0 <= p < off ==> #[trigger] data@[p] == before[p],
                            forall|p: int|
                                off + size <= p < data@.len() ==> #[trigger] data@[p] == before[p],
                            forall|q: int|
                                off <= q < off + j ==> #[trigger] data@[q] == bytes@[q - off],
                            forall|q: int|
                                off + j <= q < off + size ==> #[trigger] data@[q] == before[q],
                        decreases size - j,
                    {
                        let b = bytes[j];
                        data[off + j] = b;
                        j = j + 1;
                    }
                    proof {
                        assert(data@ =~= apply_slot(before, all[i as int]));
                    }
                },
            }
            i = i + 1;
        }
        proof {
            assert(all.take(n as int) =~= all);
            lemma_apply_slots_untouched(orig, all);
        }
        data
    }
}

/// A name has matching slots exactly when some slot of the directory carries
/// it.
pub proof fn lemma_matching_all(slots: Seq<Linkstore>, name: Seq<char>)
    ensures
        (matching_slots(slots, name).len() == 0) <==> (forall|k: int|
            0 <= k < slots.len() ==> (#[trigger] slots[k]).name@ != name),
    decreases slots.len(),
{
    if slots.len() > 0 {
        lemma_matching_all(slots.skip(1), name);
        if matching_slots(slots, name).len() == 0 {
            assert forall|k: int| 0 <= k < slots.len() implies (#[trigger] slots[k]).name@
                != name by {
                if k > 0 {
                    assert(slots.skip(1)[k - 1] == slots[k]);
                }
            }
        }
        if forall|k: int| 0 <= k < slots.len() ==> (#[trigger] slots[k]).name@ != name {
            assert forall|k: int| 0 <= k < slots.skip(1).len() implies (#[trigger] slots.skip(
                1,
            )[k]).name@ != name by {
                assert(slots.skip(1)[k] == slots[k + 1]);
            }
        }
    }
}

} // verus!
