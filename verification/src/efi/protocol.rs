//! The database of installed protocols: which interface each handle offers
//! under which identifier.

use vstd::prelude::*;
use crate::efi::guid::Guid;
use crate::efi::status::Status;
use crate::efi::Handle;

verus! {

/// One installed protocol: the address of the interface that `handle`
/// offers under the identifier `guid`.
#[derive(Clone, Copy, Debug)]
pub struct ProtocolEntry {
    pub handle: Handle,
    pub guid: Guid,
    pub interface: usize,
}

impl ProtocolEntry {
    /// Whether the entry is the one of `handle` and `guid`.
    pub open spec fn is_for(&self, handle: Handle, guid: &Guid) -> bool {
        self.handle == handle && self.guid.same(guid)
    }
}

/// The database: at most one entry for a handle and an identifier.
pub struct ProtocolDb {
    entries: Vec<ProtocolEntry>,
}

impl View for ProtocolDb {
    type V = Seq<ProtocolEntry>;

    closed spec fn view(&self) -> Seq<ProtocolEntry> {
        self.entries@
    }
}

/// Whether no two entries are for the same handle and identifier.
pub open spec fn distinct(s: Seq<ProtocolEntry>) -> bool {
    forall|i: int, j: int|
        0 <= i < s.len() && 0 <= j < s.len() && i != j ==> !(#[trigger] s[i]).is_for(
            (#[trigger] s[j]).handle,
            &s[j].guid,
        )
}

/// The interface that `handle` offers under `guid`, if any.
pub open spec fn installed(s: Seq<ProtocolEntry>, handle: Handle, guid: &Guid) -> Option<usize> {
    if exists|i: int| 0 <= i < s.len() && (#[trigger] s[i]).is_for(handle, guid) {
        let i = choose|i: int| 0 <= i < s.len() && (#[trigger] s[i]).is_for(handle, guid);
        Some(s[i].interface)
    } else {
        None
    }
}

/// In a database the entry for a handle and an identifier decides what is
/// installed.
pub proof fn lemma_installed(s: Seq<ProtocolEntry>, i: int, handle: Handle, guid: &Guid)
    requires
        distinct(s),
        0 <= i < s.len(),
        s[i].is_for(handle, guid),
    ensures
        installed(s, handle, guid) == Some(s[i].interface),
{
    let j = choose|j: int| 0 <= j < s.len() && (#[trigger] s[j]).is_for(handle, guid);
    if j != i {
        assert(s[i].is_for(s[j].handle, &s[j].guid));
    }
}

/// What is installed does not depend on which of two identifiers with the
/// same parts names it.
pub proof fn lemma_lookup_same(s: Seq<ProtocolEntry>, handle: Handle, a: &Guid, b: &Guid)
    requires
        distinct(s),
        a.same(b),
    ensures
        installed(s, handle, a) == installed(s, handle, b),
{
    if exists|i: int| 0 <= i < s.len() && (#[trigger] s[i]).is_for(handle, a) {
        let i = choose|i: int| 0 <= i < s.len() && (#[trigger] s[i]).is_for(handle, a);
        assert(s[i].is_for(handle, b));
        lemma_installed(s, i, handle, a);
        lemma_installed(s, i, handle, b);
    } else if exists|i: int| 0 <= i < s.len() && (#[trigger] s[i]).is_for(handle, b) {
        let i = choose|i: int| 0 <= i < s.len() && (#[trigger] s[i]).is_for(handle, b);
        assert(s[i].is_for(handle, a));
    }
}

impl ProtocolDb {
    /// The invariant: see `distinct`.
    pub open spec fn wf(&self) -> bool {
        distinct(self@)
    }

    /// The interface that `handle` offers under `guid`, if any.
    pub open spec fn lookup(&self, handle: Handle, guid: &Guid) -> Option<usize> {
        installed(self@, handle, guid)
    }

    /// A database without entries.
    pub fn new() -> (db: ProtocolDb)
        ensures
            db.wf(),
            db@.len() == 0,
    {
        ProtocolDb { entries: Vec::new() }
    }

    /// The number of entries.
    pub fn len(&self) -> (n: usize)
        ensures
            n == self@.len(),
    {
        self.entries.len()
    }

    /// The entry at position `i`.
    pub fn entry(&self, i: usize) -> (e: Option<ProtocolEntry>)
        ensures
            e == (if i < self@.len() {
                Some(self@[i as int])
            } else {
                None
            }),
    {
        if i < self.entries.len() {
            Some(self.entries[i])
        } else {
            None
        }
    }

    /// The position of the entry for `handle` and `guid`, if there is one.
    fn find(&self, handle: Handle, guid: &Guid) -> (r: Option<usize>)
        ensures
            match r {
                Some(i) => i < self@.len() && self@[i as int].is_for(handle, guid),
                None => forall|i: int| 0 <= i < self@.len() ==> !(#[trigger] self@[i]).is_for(
                    handle,
                    guid,
                ),
            },
    {
        let mut i: usize = 0;
        while i < self.entries.len()
            invariant
                i <= self@.len(),
                forall|j: int| 0 <= j < i ==> !(#[trigger] self@[j]).is_for(handle, guid),
            decreases self@.len() - i,
        {
            if self.entries[i].handle == handle && self.entries[i].guid == *guid {
                return Some(i);
            }
            i += 1;
        }
        None
    }

    /// Installs `interface` for `handle` under `guid`, in place of what was
    /// installed there before.
    pub fn install_protocol(&mut self, handle: Handle, guid: &Guid, interface: usize)
        requires
            old(self).wf(),
        ensures
            final(self).wf(),
            final(self).lookup(handle, guid) == Some(interface),
            forall|h: Handle, g: Guid|
                !(h == handle && g.same(guid)) ==> #[trigger] final(self).lookup(h, &g) == old(
                    self,
                ).lookup(h, &g),
    {
        let ghost before = self@;
        let entry = ProtocolEntry { handle, guid: *guid, interface };
        match self.find(handle, guid) {
            Some(i) => {
                self.entries[i] = entry;
                proof {
                    let after = self@;
                    assert forall|a: int, b: int|
                        0 <= a < after.len() && 0 <= b < after.len() && a != b implies !(
                    #[trigger] after[a]).is_for((#[trigger] after[b]).handle, &after[b].guid) by {
                        assert(after[a].handle == before[a].handle && after[a].guid.same(
                            &before[a].guid,
                        ));
                        assert(after[b].handle == before[b].handle && after[b].guid.same(
                            &before[b].guid,
                        ));
                        assert(!before[a].is_for(before[b].handle, &before[b].guid));
                    }
                    lemma_installed(after, i as int, handle, guid);
                    assert forall|h: Handle, g: Guid| !(h == handle && g.same(guid)) implies (
                    #[trigger] installed(after, h, &g)) == installed(before, h, &g) by {
                        lemma_same_elsewhere(before, after, i as int, h, &g);
                    }
                }
            },
            None => {
                self.entries.push(entry);
                proof {
                    let after = self@;
                    let n = before.len() as int;
                    assert(after[n] == entry);
                    assert forall|a: int, b: int|
                        0 <= a < after.len() && 0 <= b < after.len() && a != b implies !(
                    #[trigger] after[a]).is_for((#[trigger] after[b]).handle, &after[b].guid) by {
                        if a < n && b < n {
                            assert(after[a] == before[a] && after[b] == before[b]);
                            assert(!before[a].is_for(before[b].handle, &before[b].guid));
                        } else if a < n {
                            assert(after[a] == before[a]);
                            assert(!before[a].is_for(handle, guid));
                        } else {
                            assert(after[b] == before[b]);
                            assert(!before[b].is_for(handle, guid));
                        }
                    }
                    lemma_installed(after, n, handle, guid);
                    assert forall|h: Handle, g: Guid| !(h == handle && g.same(guid)) implies (
                    #[trigger] installed(after, h, &g)) == installed(before, h, &g) by {
                        lemma_same_after_push(before, entry, h, &g);
                    }
                }
            },
        }
    }

    /// Takes away what `handle` offers under `guid`.
    pub fn uninstall_protocol(&mut self, handle: Handle, guid: &Guid)
        requires
            old(self).wf(),
        ensures
            final(self).wf(),
            final(self).lookup(handle, guid) is None,
            forall|h: Handle, g: Guid|
                !(h == handle && g.same(guid)) ==> #[trigger] final(self).lookup(h, &g) == old(
                    self,
                ).lookup(h, &g),
    {
        let ghost before = self@;
        match self.find(handle, guid) {
            Some(i) => {
                self.entries.remove(i);
                proof {
                    let after = self@;
                    assert forall|a: int, b: int|
                        0 <= a < after.len() && 0 <= b < after.len() && a != b implies !(
                    #[trigger] after[a]).is_for((#[trigger] after[b]).handle, &after[b].guid) by {
                        let oa = if a < i { a } else { a + 1 };
                        let ob = if b < i { b } else { b + 1 };
                        assert(after[a] == before[oa] && after[b] == before[ob]);
                        assert(!before[oa].is_for(before[ob].handle, &before[ob].guid));
                    }
                    assert forall|h: Handle, g: Guid|
                        true implies (#[trigger] installed(after, h, &g)) == (if h == handle
                        && g.same(guid) {
                        None
                    } else {
                        installed(before, h, &g)
                    }) by {
                        lemma_same_after_remove(before, i as int, h, &g);
                    }
                }
            },
            None => {},
        }
    }

    /// The interface that `handle` offers under `protocol`, if any.
    pub fn handle_protocol(&self, handle: Handle, protocol: &Guid) -> (r: Option<usize>)
        requires
            self.wf(),
        ensures
            r == self.lookup(handle, protocol),
    {
        match self.find(handle, protocol) {
            Some(i) => {
                proof {
                    lemma_installed(self@, i as int, handle, protocol);
                }
                Some(self.entries[i].interface)
            },
            None => None,
        }
    }

    /// An interface under `protocol`: that of the lowest handle that offers
    /// one.
    pub fn locate_protocol(&self, protocol: &Guid) -> (r: Option<usize>)
        requires
            self.wf(),
        ensures
            match r {
                Some(interface) => exists|i: int|
                    0 <= i < self@.len() && (#[trigger] self@[i]).guid.same(protocol)
                        && self@[i].interface == interface && forall|j: int|
                        0 <= j < self@.len() && (#[trigger] self@[j]).guid.same(protocol)
                            ==> self@[i].handle <= self@[j].handle,
                None => forall|i: int|
                    0 <= i < self@.len() ==> !(#[trigger] self@[i]).guid.same(protocol),
            },
    {
        let mut best: Option<usize> = None;
        let mut i: usize = 0;
        while i < self.entries.len()
            invariant
                i <= self@.len(),
                match best {
                    Some(b) => b < i && self@[b as int].guid.same(protocol) && forall|j: int|
                        0 <= j < i && (#[trigger] self@[j]).guid.same(protocol)
                            ==> self@[b as int].handle <= self@[j].handle,
                    None => forall|j: int|
                        0 <= j < i ==> !(#[trigger] self@[j]).guid.same(protocol),
                },
            decreases self@.len() - i,
        {
            if self.entries[i].guid == *protocol {
                best = match best {
                    Some(b) => if self.entries[i].handle < self.entries[b].handle {
                        Some(i)
                    } else {
                        Some(b)
                    },
                    None => Some(i),
                };
            }
            i += 1;
        }
        match best {
            Some(b) => Some(self.entries[b].interface),
            None => None,
        }
    }
}

/// Replacing the entry for one handle and identifier leaves what the others
/// offer.
proof fn lemma_same_elsewhere(
    before: Seq<ProtocolEntry>,
    after: Seq<ProtocolEntry>,
    i: int,
    h: Handle,
    g: &Guid,
)
    requires
        distinct(before),
        distinct(after),
        0 <= i < before.len(),
        after.len() == before.len(),
        forall|j: int| 0 <= j < before.len() && j != i ==> after[j] == before[j],
        after[i].handle == before[i].handle,
        after[i].guid.same(&before[i].guid),
        !before[i].is_for(h, g),
    ensures
        installed(after, h, g) == installed(before, h, g),
{
    if installed(before, h, g) is Some {
        let j = choose|j: int| 0 <= j < before.len() && (#[trigger] before[j]).is_for(h, g);
        assert(after[j] == before[j]);
        lemma_installed(after, j, h, g);
    } else if installed(after, h, g) is Some {
        let j = choose|j: int| 0 <= j < after.len() && (#[trigger] after[j]).is_for(h, g);
        assert(j != i);
        assert(before[j].is_for(h, g));
    }
}

/// A new entry for one handle and identifier leaves what the others offer.
proof fn lemma_same_after_push(before: Seq<ProtocolEntry>, e: ProtocolEntry, h: Handle, g: &Guid)
    requires
        distinct(before),
        distinct(before.push(e)),
        !e.is_for(h, g),
    ensures
        installed(before.push(e), h, g) == installed(before, h, g),
{
    let after = before.push(e);
    if installed(before, h, g) is Some {
        let j = choose|j: int| 0 <= j < before.len() && (#[trigger] before[j]).is_for(h, g);
        assert(after[j] == before[j]);
        lemma_installed(after, j, h, g);
    } else if installed(after, h, g) is Some {
        let j = choose|j: int| 0 <= j < after.len() && (#[trigger] after[j]).is_for(h, g);
        assert(j < before.len());
        assert(before[j].is_for(h, g));
    }
}

/// Without one entry, the handle and identifier of that entry offer nothing,
/// and the others what they did.
proof fn lemma_same_after_remove(before: Seq<ProtocolEntry>, i: int, h: Handle, g: &Guid)
    requires
        distinct(before),
        distinct(before.remove(i)),
        0 <= i < before.len(),
    ensures
        installed(before.remove(i), h, g) == (if before[i].is_for(h, g) {
            None
        } else {
            installed(before, h, g)
        }),
{
    let after = before.remove(i);
    if installed(after, h, g) is Some {
        let j = choose|j: int| 0 <= j < after.len() && (#[trigger] after[j]).is_for(h, g);
        let oj = if j < i { j } else { j + 1 };
        assert(after[j] == before[oj]);
        lemma_installed(before, oj, h, g);
        if before[i].is_for(h, g) {
            assert(before[oj].is_for(before[i].handle, &before[i].guid));
        }
    } else if !before[i].is_for(h, g) && installed(before, h, g) is Some {
        let j = choose|j: int| 0 <= j < before.len() && (#[trigger] before[j]).is_for(h, g);
        let nj = if j < i { j } else { j - 1 };
        assert(after[nj] == before[j]);
    }
}

/// The status of a request for the protocol of a handle.
pub fn handle_protocol_status(found: Option<usize>) -> (status: Status)
    ensures
        status == (if found is Some {
            Status::EFI_SUCCESS
        } else {
            Status::EFI_UNSUPPORTED
        }),
{
    match found {
        Some(_) => Status::EFI_SUCCESS,
        None => Status::EFI_UNSUPPORTED,
    }
}

/// The status of a request to locate a protocol or a device.
pub fn locate_status(found: Option<usize>) -> (status: Status)
    ensures
        status == (if found is Some {
            Status::EFI_SUCCESS
        } else {
            Status::EFI_NOT_FOUND
        }),
{
    match found {
        Some(_) => Status::EFI_SUCCESS,
        None => Status::EFI_NOT_FOUND,
    }
}

/// Among the candidates for a device path, each with the number of bytes of
/// the path that its own path matches, the position of the one that matches
/// most; of several that match as much, the last. Candidates that match
/// nothing do not count.
pub fn locate_device_path(matched: &Vec<usize>) -> (best: Option<usize>)
    ensures
        match best {
            Some(b) => {
                &&& b < matched@.len()
                &&& matched@[b as int] > 0
                &&& forall|j: int| 0 <= j < matched@.len() ==> matched@[j] <= matched@[b as int]
                &&& forall|j: int| b < j < matched@.len() ==> matched@[j] < matched@[b as int]
            },
            None => forall|j: int| 0 <= j < matched@.len() ==> matched@[j] == 0,
        },
{
    let mut best: Option<usize> = None;
    let mut i: usize = 0;
    while i < matched.len()
        invariant
            i <= matched@.len(),
            match best {
                Some(b) => {
                    &&& b < i
                    &&& matched@[b as int] > 0
                    &&& forall|j: int| 0 <= j < i ==> matched@[j] <= matched@[b as int]
                    &&& forall|j: int| b < j < i ==> matched@[j] < matched@[b as int]
                },
                None => forall|j: int| 0 <= j < i ==> matched@[j] == 0,
            },
        decreases matched@.len() - i,
    {
        if matched[i] > 0 {
            best = match best {
                Some(b) => if matched[i] >= matched[b] {
                    Some(i)
                } else {
                    Some(b)
                },
                None => Some(i),
            };
        }
        i += 1;
    }
    best
}

} // verus!
