use vstd::bytes::{
    lemma_auto_spec_u64_to_from_le_bytes, spec_u64_from_le_bytes, spec_u64_to_le_bytes,
    u64_from_le_bytes, u64_to_le_bytes,
};
use crate::error::PalletError;
use vstd::prelude::*;
use vstd::slice::slice_subrange;

verus! {

/// A 32-byte account address.
pub type Address = [u8; 32];

/// Bytes taken by one encoded ledger entry: the address, then the balance.
pub const ENTRY_LEN: usize = 40;

/// The balance mapping that a list of entries denotes; a later entry for
/// the same address overrides an earlier one.
pub open spec fn ledger_map(entries: Seq<(Seq<u8>, u64)>) -> Map<Seq<u8>, u64>
    decreases entries.len(),
{
    if entries.len() == 0 {
        Map::empty()
    } else {
        let last = entries.last();
        ledger_map(entries.drop_last()).insert(last.0, last.1)
    }
}

/// The entries written as addresses seen through their bytes.
pub open spec fn entry_pairs(entries: Seq<(Address, u64)>) -> Seq<(Seq<u8>, u64)> {
    entries.map_values(|e: (Address, u64)| (e.0@, e.1))
}

/// The encoding of a list of entries, one after the other.
pub open spec fn entries_bytes(entries: Seq<(Seq<u8>, u64)>) -> Seq<u8>
    decreases entries.len(),
{
    if entries.len() == 0 {
        Seq::empty()
    } else {
        let last = entries.last();
        entries_bytes(entries.drop_last()) + last.0 + spec_u64_to_le_bytes(last.1)
    }
}

/// The four little-endian bytes of a count.
pub open spec fn count_bytes(n: u32) -> Seq<u8> {
    seq![n as u8, (n >> 8) as u8, (n >> 16) as u8, (n >> 24) as u8]
}

/// The count that four little-endian bytes hold.
pub open spec fn count_of(b: Seq<u8>) -> u32 {
    (b[0] as u32) | (b[1] as u32) << 8 | (b[2] as u32) << 16 | (b[3] as u32) << 24
}

/// Reading back the bytes of a count gives the count.
pub proof fn lemma_count_round_trip(n: u32)
    ensures
        count_of(count_bytes(n)) == n,
        count_bytes(n).len() == 4,
{
    let b0 = n as u8;
    let b1 = (n >> 8) as u8;
    let b2 = (n >> 16) as u8;
    let b3 = (n >> 24) as u8;
    assert((b0 as u32) | (b1 as u32) << 8 | (b2 as u32) << 16 | (b3 as u32) << 24 == n) by (bit_vector)
        requires
            b0 == n as u8,
            b1 == (n >> 8) as u8,
            b2 == (n >> 16) as u8,
            b3 == (n >> 24) as u8,
    ;
}

/// The encoding of a ledger: a four-byte little-endian count, then the entries.
pub open spec fn ledger_bytes(entries: Seq<(Seq<u8>, u64)>) -> Seq<u8> {
    count_bytes(entries.len() as u32) + entries_bytes(entries)
}

/// The `i`-th entry of an encoded ledger.
pub open spec fn entry_at(raw: Seq<u8>, i: int) -> (Seq<u8>, u64) {
    let off = 4 + ENTRY_LEN * i;
    (raw.subrange(off, off + 32), spec_u64_from_le_bytes(raw.subrange(off + 32, off + 40)))
}

/// The entry count that an encoded ledger declares.
pub open spec fn declared_count(raw: Seq<u8>) -> nat {
    count_of(raw) as nat
}

/// The entries that `raw` encodes, or `None` where it is too short for them;
/// bytes after the last entry are ignored.
pub open spec fn parse_ledger(raw: Seq<u8>) -> Option<Seq<(Seq<u8>, u64)>> {
    if raw.len() >= 4 && raw.len() - 4 >= ENTRY_LEN * declared_count(raw) {
        Some(Seq::new(declared_count(raw), |i: int| entry_at(raw, i)))
    } else {
        None
    }
}

/// The balance ledger kept in the vault region.
#[derive(Debug)]
pub struct Storage {
    bank: Vec<(Address, u64)>,
}

impl View for Storage {
    type V = Map<Seq<u8>, u64>;

    closed spec fn view(&self) -> Map<Seq<u8>, u64> {
        ledger_map(entry_pairs(self.bank@))
    }
}

/// Addresses in byte-wise lexicographic order: `a` comes strictly before `b`.
pub open spec fn address_lt(a: Seq<u8>, b: Seq<u8>) -> bool
    decreases a.len(),
{
    if a.len() == 0 || b.len() == 0 {
        a.len() == 0 && b.len() > 0
    } else if a[0] != b[0] {
        a[0] < b[0]
    } else {
        address_lt(a.drop_first(), b.drop_first())
    }
}

/// Entries in strictly increasing order of address.
pub open spec fn sorted_by_address(entries: Seq<(Seq<u8>, u64)>) -> bool {
    forall|i: int, j: int|
        0 <= i < j < entries.len() ==> address_lt(#[trigger] entries[i].0, #[trigger] entries[j].0)
}

proof fn lemma_lt_irreflexive(a: Seq<u8>)
    ensures
        !address_lt(a, a),
    decreases a.len(),
{
    if a.len() > 0 {
        lemma_lt_irreflexive(a.drop_first());
    }
}

proof fn lemma_lt_transitive(a: Seq<u8>, b: Seq<u8>, c: Seq<u8>)
    requires
        address_lt(a, b),
        address_lt(b, c),
    ensures
        address_lt(a, c),
    decreases a.len(),
{
    if a.len() > 0 && b.len() > 0 && c.len() > 0 && a[0] == b[0] && b[0] == c[0] {
        lemma_lt_transitive(a.drop_first(), b.drop_first(), c.drop_first());
    }
}

proof fn lemma_lt_total(a: Seq<u8>, b: Seq<u8>)
    requires
        a.len() == b.len(),
        a != b,
    ensures
        address_lt(a, b) || address_lt(b, a),
    decreases a.len(),
{
    if a.len() == 0 {
        assert(a =~= b);
    } else if a[0] == b[0] {
        if a.drop_first() == b.drop_first() {
            assert(a =~= b) by {
                assert forall|i: int| 0 <= i < a.len() implies a[i] == b[i] by {
                    if i > 0 {
                        assert(a[i] == a.drop_first()[i - 1]);
                        assert(b[i] == b.drop_first()[i - 1]);
                    }
                }
            }
        }
        lemma_lt_total(a.drop_first(), b.drop_first());
    }
}

proof fn lemma_sorted_unique(entries: Seq<(Seq<u8>, u64)>)
    requires
        sorted_by_address(entries),
    ensures
        keys_unique(entries),
{
    assert forall|i: int, j: int| 0 <= i < j < entries.len() implies entries[i].0 != entries[j].0 by {
        assert(address_lt(entries[i].0, entries[j].0));
        lemma_lt_irreflexive(entries[i].0);
    }
}

proof fn lemma_ledger_insert(entries: Seq<(Seq<u8>, u64)>, p: int, k: Seq<u8>, v: u64)
    requires
        0 <= p <= entries.len(),
        forall|i: int| 0 <= i < entries.len() ==> entries[i].0 != k,
    ensures
        ledger_map(entries.insert(p, (k, v))) == ledger_map(entries).insert(k, v),
    decreases entries.len(),
{
    let ins = entries.insert(p, (k, v));
    if p == entries.len() {
        assert(ins.drop_last() =~= entries);
    } else {
        let init = entries.drop_last();
        lemma_ledger_insert(init, p, k, v);
        assert(ins.drop_last() =~= init.insert(p, (k, v)));
        assert(ins.last() == entries.last());
        assert(ledger_map(ins) =~= ledger_map(entries).insert(k, v));
    }
}

/// No address occurs twice among the entries.
pub open spec fn keys_unique(entries: Seq<(Seq<u8>, u64)>) -> bool {
    forall|i: int, j: int| 0 <= i < j < entries.len() ==> entries[i].0 != entries[j].0
}

proof fn lemma_ledger_absent(entries: Seq<(Seq<u8>, u64)>, k: Seq<u8>)
    requires
        forall|i: int| 0 <= i < entries.len() ==> entries[i].0 != k,
    ensures
        !ledger_map(entries).contains_key(k),
    decreases entries.len(),
{
    if entries.len() > 0 {
        lemma_ledger_absent(entries.drop_last(), k);
    }
}

proof fn lemma_ledger_at(entries: Seq<(Seq<u8>, u64)>, i: int)
    requires
        keys_unique(entries),
        0 <= i < entries.len(),
    ensures
        ledger_map(entries).contains_key(entries[i].0),
        ledger_map(entries)[entries[i].0] == entries[i].1,
    decreases entries.len(),
{
    if i < entries.len() - 1 {
        lemma_ledger_at(entries.drop_last(), i);
    }
}

proof fn lemma_ledger_update(entries: Seq<(Seq<u8>, u64)>, i: int, v: u64)
    requires
        keys_unique(entries),
        0 <= i < entries.len(),
    ensures
        ledger_map(entries.update(i, (entries[i].0, v))) == ledger_map(entries).insert(
            entries[i].0,
            v,
        ),
    decreases entries.len(),
{
    let k = entries[i].0;
    let upd = entries.update(i, (k, v));
    if i == entries.len() - 1 {
        assert(upd.drop_last() =~= entries.drop_last());
        lemma_ledger_absent(entries.drop_last(), k);
        assert(ledger_map(upd) =~= ledger_map(entries).insert(k, v));
    } else {
        lemma_ledger_update(entries.drop_last(), i, v);
        assert(upd.drop_last() =~= entries.drop_last().update(i, (k, v)));
        assert(ledger_map(upd) =~= ledger_map(entries).insert(k, v));
    }
}

/// Appends the bytes of an address.
fn push_address(out: &mut Vec<u8>, a: &Address)
    ensures
        final(out)@ == old(out)@ + a@,
{
    let ghost start = out@;
    let mut j: usize = 0;
    while j < 32
        invariant
            j <= 32,
            a@.len() == 32,
            out@ == start + a@.take(j as int),
        decreases 32 - j,
    {
        out.push(a[j]);
        proof {
            assert(a@.take(j + 1) =~= a@.take(j as int).push(a@[j as int]));
        }
        j = j + 1;
    }
    assert(a@.take(32) =~= a@);
}

/// The address stored at `off` in `raw`.
fn read_address(raw: &[u8], off: usize) -> (r: Address)
    requires
        off + 32 <= raw@.len(),
    ensures
        r@ == raw@.subrange(off as int, off + 32),
{
    let len = raw.len();
    let mut a: Address = [0u8; 32];
    let mut j: usize = 0;
    while j < 32
        invariant
            j <= 32,
            len == raw@.len(),
            off + 32 <= raw@.len(),
            a@.len() == 32,
            forall|k: int| 0 <= k < j ==> a@[k] == raw@[off + k],
        decreases 32 - j,
    {
        a[j] = raw[off + j];
        j = j + 1;
    }
    assert(a@ =~= raw@.subrange(off as int, off + 32));
    a
}

/// Whether address `a` comes strictly before address `b`.
fn address_before(a: &Address, b: &Address) -> (r: bool)
    ensures
        r == address_lt(a@, b@),
{
    let mut i: usize = 0;
    assert(a@.skip(0) =~= a@);
    assert(b@.skip(0) =~= b@);
    while i < 32
        invariant
            i <= 32,
            a@.len() == 32,
            b@.len() == 32,
            address_lt(a@, b@) == address_lt(a@.skip(i as int), b@.skip(i as int)),
        decreases 32 - i,
    {
        assert(a@.skip(i as int).drop_first() =~= a@.skip(i + 1));
        assert(b@.skip(i as int).drop_first() =~= b@.skip(i + 1));
        if a[i] != b[i] {
            return a[i] < b[i];
        }
        i = i + 1;
    }
    assert(a@.skip(32).len() == 0);
    false
}

/// Whether two addresses are equal, byte by byte.
pub(crate) fn same_address(a: &Address, b: &Address) -> (r: bool)
    ensures
        r == (a@ == b@),
{
    let mut i: usize = 0;
    while i < 32
        invariant
            i <= 32,
            a@.len() == 32,
            b@.len() == 32,
            forall|j: int| 0 <= j < i ==> a@[j] == b@[j],
        decreases 32 - i,
    {
        if a[i] != b[i] {
            return false;
        }
        i = i + 1;
    }
    assert(a@ =~= b@);
    true
}

impl Storage {
    /// Entries are kept in strictly increasing order of address, so each
    /// address occurs at most once.
    pub closed spec fn wf(&self) -> bool {
        sorted_by_address(entry_pairs(self.bank@))
    }

    /// The entries in the order they are stored and encoded: by address.
    pub closed spec fn entries(&self) -> Seq<(Seq<u8>, u64)> {
        entry_pairs(self.bank@)
    }

    /// An empty ledger.
    pub fn new() -> (r: Self)
        ensures
            r.wf(),
            r@ == Map::<Seq<u8>, u64>::empty(),
            r.entries().len() == 0,
    {
        let r = Storage { bank: Vec::new() };
        assert(entry_pairs(r.bank@) =~= Seq::empty());
        r
    }

    /// The number of addresses with a recorded balance.
    pub fn len(&self) -> (r: usize)
        requires
            self.wf(),
        ensures
            r == self@.dom().len(),
            r == self.entries().len(),
    {
        proof {
            self.lemma_dom_len();
        }
        self.bank.len()
    }

    proof fn lemma_dom_len(&self)
        requires
            self.wf(),
        ensures
            self@.dom().len() == self.entries().len(),
            self@.dom().finite(),
    {
        let es = entry_pairs(self.bank@);
        lemma_sorted_unique(es);
        lemma_dom_len_of(es);
    }

    /// The encoding of the ledger, entries in increasing order of address.
    pub fn encode(&self) -> (r: Vec<u8>)
        requires
            self.entries().len() <= u32::MAX,
        ensures
            r@ == ledger_bytes(self.entries()),
    {
        let n = self.bank.len() as u32;
        let mut out = vec![n as u8, (n >> 8) as u8, (n >> 16) as u8, (n >> 24) as u8];
        let ghost head = out@;
        let ghost es = entry_pairs(self.bank@);
        let mut i: usize = 0;
        while i < self.bank.len()
            invariant
                i <= self.bank@.len(),
                es == entry_pairs(self.bank@),
                out@ == head + entries_bytes(es.take(i as int)),
            decreases self.bank@.len() - i,
        {
            push_address(&mut out, &self.bank[i].0);
            let mut value = u64_to_le_bytes(self.bank[i].1);
            out.append(&mut value);
            proof {
                assert(es.take(i + 1).drop_last() =~= es.take(i as int));
                assert(out@ =~= head + entries_bytes(es.take(i + 1)));
            }
            i = i + 1;
        }
        proof {
            assert(es.take(i as int) =~= es);
            assert(head =~= count_bytes(es.len() as u32));
        }
        out
    }

    /// Appends the ledger's encoding to `target`; fails with `CantUpdate`,
    /// writing nothing, where the entry count does not fit its four bytes.
    pub fn pack(&self, target: &mut Vec<u8>) -> (r: Result<(), PalletError>)
        requires
            self.wf(),
        ensures
            r is Ok <==> self.entries().len() <= u32::MAX,
            r is Ok ==> final(target)@ == old(target)@ + ledger_bytes(self.entries()),
            r is Err ==> r->Err_0 == PalletError::CantUpdate && final(target)@ == old(target)@,
    {
        if self.bank.len() > u32::MAX as usize {
            return Err(PalletError::CantUpdate);
        }
        let mut bytes = self.encode();
        target.append(&mut bytes);
        Ok(())
    }

    /// Writes the ledger's encoding over the start of the fixed-size region
    /// `target`; fails with `CantUpdate`, writing nothing, where it does not fit.
    pub fn write_into(&self, target: &mut Vec<u8>) -> (r: Result<(), PalletError>)
        requires
            self.wf(),
        ensures
            r is Ok <==> (self.entries().len() <= u32::MAX && ledger_bytes(self.entries()).len()
                <= old(target)@.len()),
            r is Ok ==> final(target)@ == ledger_bytes(self.entries()) + old(target)@.subrange(
                ledger_bytes(self.entries()).len() as int,
                old(target)@.len() as int,
            ),
            r is Err ==> r->Err_0 == PalletError::CantUpdate && final(target)@ == old(target)@,
    {
        if self.bank.len() > u32::MAX as usize {
            return Err(PalletError::CantUpdate);
        }
        let bytes = self.encode();
        if bytes.len() > target.len() {
            return Err(PalletError::CantUpdate);
        }
        let ghost before = target@;
        let mut i: usize = 0;
        while i < bytes.len()
            invariant
                i <= bytes@.len(),
                bytes@.len() <= before.len(),
                target@.len() == before.len(),
                forall|j: int| 0 <= j < i ==> target@[j] == bytes@[j],
                forall|j: int| i <= j < before.len() ==> target@[j] == before[j],
            decreases bytes@.len() - i,
        {
            target.set(i, bytes[i]);
            i = i + 1;
        }
        assert(target@ =~= bytes@ + before.subrange(bytes@.len() as int, before.len() as int));
        Ok(())
    }

    /// Reads a ledger from its encoding, or `None` where `raw` is too short
    /// for the entries it declares.
    pub fn upack(raw: &[u8]) -> (r: Option<Self>)
        ensures
            r is Some <==> parse_ledger(raw@) is Some,
            r is Some ==> r->0.wf() && r->0@ == ledger_map(parse_ledger(raw@)->0),
    {
        if raw.len() < 4 {
            return None;
        }
        let n: u32 = (raw[0] as u32) | (raw[1] as u32) << 8 | (raw[2] as u32) << 16
            | (raw[3] as u32) << 24;
        let mut st = Storage::new();
        let mut off: usize = 4;
        let mut i: u32 = 0;
        while i < n
            invariant
                raw@.len() >= 4,
                n as nat == declared_count(raw@),
                i <= n,
                off == 4 + ENTRY_LEN * i,
                off <= raw@.len(),
                st.wf(),
                st@ == ledger_map(Seq::new(i as nat, |j: int| entry_at(raw@, j))),
            decreases n - i,
        {
            if raw.len() - off < ENTRY_LEN {
                return None;
            }
            let key = read_address(raw, off);
            let payload = slice_subrange(raw, off + 32, off + 40);
            let value = u64_from_le_bytes(payload);
            st.set_balance(&key, value);
            proof {
                let next = Seq::new((i + 1) as nat, |j: int| entry_at(raw@, j));
                assert(payload@ == raw@.subrange(off + 32, off + 40));
                assert(entry_at(raw@, i as int) == (key@, value));
                assert(next.drop_last() =~= Seq::new(i as nat, |j: int| entry_at(raw@, j)));
                assert(next[i as int] == (key@, value));
            }
            off = off + ENTRY_LEN;
            i = i + 1;
        }
        assert(Seq::new(i as nat, |j: int| entry_at(raw@, j)) =~= Seq::new(declared_count(raw@), |j: int| entry_at(raw@, j)));
        Some(st)
    }

    /// Reads a ledger, taking anything that does not decode as the empty
    /// ledger, as a fresh zero-filled region does.
    pub fn decode_ledger(raw: &[u8]) -> (r: Self)
        ensures
            r.wf(),
            r@ == match parse_ledger(raw@) {
                Some(es) => ledger_map(es),
                None => Map::empty(),
            },
    {
        match Self::upack(raw) {
            Some(st) => st,
            None => Storage::new(),
        }
    }

    /// Where `addr` is stored, if anywhere.
    fn position(&self, addr: &Address) -> (r: Option<usize>)
        requires
            self.wf(),
        ensures
            r is Some ==> r->0 < self.bank@.len() && self.bank@[r->0 as int].0@ == addr@,
            r is None ==> forall|i: int|
                0 <= i < self.bank@.len() ==> self.bank@[i].0@ != addr@,
    {
        let mut i: usize = 0;
        while i < self.bank.len()
            invariant
                i <= self.bank@.len(),
                forall|j: int| 0 <= j < i ==> self.bank@[j].0@ != addr@,
            decreases self.bank@.len() - i,
        {
            if same_address(&self.bank[i].0, addr) {
                return Some(i);
            }
            i = i + 1;
        }
        None
    }

    /// The balance recorded for `addr`, or 0 where there is none.
    pub fn get_balance(&self, addr: &Address) -> (r: u64)
        requires
            self.wf(),
        ensures
            r == spec_balance(self@, addr@),
    {
        let es = Ghost(entry_pairs(self.bank@));
        match self.position(addr) {
            Some(i) => {
                proof {
                    lemma_sorted_unique(es@);
                    lemma_ledger_at(es@, i as int);
                }
                self.bank[i].1
            },
            None => {
                proof {
                    lemma_ledger_absent(es@, addr@);
                }
                0
            },
        }
    }

    /// Records `value` as the balance of `addr`, replacing any earlier one.
    pub fn set_balance(&mut self, addr: &Address, value: u64)
        requires
            old(self).wf(),
        ensures
            final(self).wf(),
            final(self)@ == old(self)@.insert(addr@, value),
    {
        let ghost es = entry_pairs(self.bank@);
        let ghost k = addr@;
        proof {
            lemma_sorted_unique(es);
        }
        let mut i: usize = 0;
        while i < self.bank.len()
            invariant
                i <= self.bank@.len(),
                es == entry_pairs(self.bank@),
                es == entry_pairs(old(self).bank@),
                k == addr@,
                sorted_by_address(es),
                keys_unique(es),
                forall|j: int| 0 <= j < i ==> address_lt(#[trigger] es[j].0, k),
            decreases self.bank@.len() - i,
        {
            let here = self.bank[i].0;
            if same_address(&here, addr) {
                self.bank.set(i, (here, value));
                proof {
                    lemma_ledger_update(es, i as int, value);
                    assert(entry_pairs(self.bank@) =~= es.update(i as int, (k, value)));
                }
                return;
            }
            if address_before(addr, &here) {
                self.bank.insert(i, (*addr, value));
                proof {
                    assert forall|j: int| 0 <= j < es.len() implies es[j].0 != k by {
                        if j < i {
                            lemma_lt_irreflexive(k);
                        } else if j > i {
                            lemma_lt_transitive(k, es[i as int].0, es[j].0);
                            lemma_lt_irreflexive(k);
                        } else {
                            lemma_lt_irreflexive(k);
                        }
                    }
                    lemma_ledger_insert(es, i as int, k, value);
                    let now = entry_pairs(self.bank@);
                    assert(now =~= es.insert(i as int, (k, value)));
                    assert forall|a: int, b: int| 0 <= a < b < now.len() implies address_lt(
                        #[trigger] now[a].0,
                        #[trigger] now[b].0,
                    ) by {
                        if b == i {
                            assert(now[a] == es[a]);
                        } else if a == i {
                            assert(now[b] == es[b - 1]);
                            if b - 1 > i {
                                lemma_lt_transitive(k, es[i as int].0, es[b - 1].0);
                            }
                        } else {
                            let a0 = if a < i { a } else { a - 1 };
                            let b0 = if b < i { b } else { b - 1 };
                            assert(now[a] == es[a0]);
                            assert(now[b] == es[b0]);
                        }
                    }
                }
                return;
            }
            proof {
                lemma_lt_total(here@, k);
            }
            i = i + 1;
        }
        self.bank.push((*addr, value));
        proof {
            assert forall|j: int| 0 <= j < es.len() implies es[j].0 != k by {
                lemma_lt_irreflexive(k);
            }
            let now = entry_pairs(self.bank@);
            assert(now.drop_last() =~= es);
            assert(now =~= es.push((k, value)));
            assert forall|a: int, b: int| 0 <= a < b < now.len() implies address_lt(
                #[trigger] now[a].0,
                #[trigger] now[b].0,
            ) by {
                assert(now[a] == es[a]);
                if b < es.len() {
                    assert(now[b] == es[b]);
                }
            }
        }
    }
}

proof fn lemma_dom_len_of(es: Seq<(Seq<u8>, u64)>)
    requires
        keys_unique(es),
    ensures
        ledger_map(es).dom().finite(),
        ledger_map(es).dom().len() == es.len(),
    decreases es.len(),
{
    if es.len() > 0 {
        lemma_dom_len_of(es.drop_last());
        lemma_ledger_absent(es.drop_last(), es.last().0);
    }
}

/// A balance as the ledger reports it: 0 for an address it does not hold.
pub open spec fn spec_balance(ledger: Map<Seq<u8>, u64>, addr: Seq<u8>) -> u64 {
    if ledger.contains_key(addr) {
        ledger[addr]
    } else {
        0
    }
}


/// The ledger that the bytes of a vault region hold: what they encode, or
/// the empty ledger where they encode nothing.
pub open spec fn ledger_of(raw: Seq<u8>) -> Map<Seq<u8>, u64> {
    match parse_ledger(raw) {
        Some(es) => ledger_map(es),
        None => Map::empty(),
    }
}

/// Every address in the entries is 32 bytes long.
pub open spec fn keys_sized(entries: Seq<(Seq<u8>, u64)>) -> bool {
    forall|i: int| 0 <= i < entries.len() ==> #[trigger] entries[i].0.len() == 32
}

proof fn lemma_entries_bytes(entries: Seq<(Seq<u8>, u64)>, i: int)
    requires
        keys_sized(entries),
        0 <= i < entries.len(),
    ensures
        entries_bytes(entries).len() == ENTRY_LEN * entries.len(),
        entries_bytes(entries).subrange(ENTRY_LEN * i, ENTRY_LEN * i + 32) == entries[i].0,
        entries_bytes(entries).subrange(ENTRY_LEN * i + 32, ENTRY_LEN * i + 40)
            == spec_u64_to_le_bytes(entries[i].1),
    decreases entries.len(),
{
    lemma_auto_spec_u64_to_from_le_bytes();
    let init = entries.drop_last();
    let last = entries.last();
    assert(keys_sized(init)) by {
        assert forall|j: int| 0 <= j < init.len() implies #[trigger] init[j].0.len() == 32 by {
            assert(init[j] == entries[j]);
        }
    }
    assert(last.0.len() == 32);
    if entries.len() == 1 {
        assert(init.len() == 0);
        assert(entries_bytes(init) =~= Seq::empty());
        assert(entries_bytes(entries) =~= last.0 + spec_u64_to_le_bytes(last.1));
        assert(entries_bytes(entries).subrange(0, 32) =~= last.0);
        assert(entries_bytes(entries).subrange(32, 40) =~= spec_u64_to_le_bytes(last.1));
    } else {
        let k = if i < entries.len() - 1 { i } else { 0 };
        lemma_entries_bytes(init, k);
        let eb = entries_bytes(init);
        assert(eb.len() == ENTRY_LEN * init.len());
        let whole = entries_bytes(entries);
        assert(whole == eb + last.0 + spec_u64_to_le_bytes(last.1));
        if i < entries.len() - 1 {
            lemma_entries_bytes(init, i);
            assert(whole.subrange(ENTRY_LEN * i, ENTRY_LEN * i + 32) =~= eb.subrange(
                ENTRY_LEN * i,
                ENTRY_LEN * i + 32,
            ));
            assert(whole.subrange(ENTRY_LEN * i + 32, ENTRY_LEN * i + 40) =~= eb.subrange(
                ENTRY_LEN * i + 32,
                ENTRY_LEN * i + 40,
            ));
        } else {
            assert(whole.subrange(ENTRY_LEN * i, ENTRY_LEN * i + 32) =~= last.0);
            assert(whole.subrange(ENTRY_LEN * i + 32, ENTRY_LEN * i + 40)
                =~= spec_u64_to_le_bytes(last.1));
        }
    }
}

proof fn lemma_entries_bytes_len(entries: Seq<(Seq<u8>, u64)>)
    requires
        keys_sized(entries),
    ensures
        entries_bytes(entries).len() == ENTRY_LEN * entries.len(),
{
    if entries.len() > 0 {
        lemma_entries_bytes(entries, 0);
    }
}

/// Reading back the encoding of a list of entries, whatever follows it,
/// gives those entries.
pub proof fn lemma_parse_ledger_bytes(entries: Seq<(Seq<u8>, u64)>, rest: Seq<u8>)
    requires
        keys_sized(entries),
        entries.len() <= u32::MAX,
    ensures
        parse_ledger(ledger_bytes(entries) + rest) == Some(entries),
{
    lemma_count_round_trip(entries.len() as u32);
    lemma_auto_spec_u64_to_from_le_bytes();
    lemma_entries_bytes_len(entries);
    let raw = ledger_bytes(entries) + rest;
    let head = count_bytes(entries.len() as u32);
    let eb = entries_bytes(entries);
    assert(raw.subrange(0, 4) =~= head);
    assert(declared_count(raw) == entries.len());
    assert forall|i: int| 0 <= i < entries.len() implies entry_at(raw, i) == entries[i] by {
        lemma_entries_bytes(entries, i);
        let off = 4 + ENTRY_LEN * i;
        assert(raw.subrange(off, off + 32) =~= eb.subrange(ENTRY_LEN * i, ENTRY_LEN * i + 32));
        assert(raw.subrange(off + 32, off + 40) =~= eb.subrange(
            ENTRY_LEN * i + 32,
            ENTRY_LEN * i + 40,
        ));
    }
    assert(Seq::new(declared_count(raw), |i: int| entry_at(raw, i)) =~= entries);
}

/// Decoding what `pack` wrote into a region gives the ledger back.
pub proof fn lemma_pack_upack(st: &Storage, rest: Seq<u8>)
    requires
        st.wf(),
        st.entries().len() <= u32::MAX,
    ensures
        ledger_of(ledger_bytes(st.entries()) + rest) == st@,
{
    st.lemma_entries_sorted();
    lemma_parse_ledger_bytes(st.entries(), rest);
}

impl Storage {
    /// The encoding's length follows from the number of addresses held.
    pub proof fn lemma_encoded_len(&self)
        requires
            self.wf(),
        ensures
            ledger_bytes(self.entries()).len() == 4 + ENTRY_LEN * self@.dom().len(),
            self.entries().len() == self@.dom().len(),
    {
        self.lemma_entries_sorted();
        self.lemma_dom_len();
        lemma_entries_bytes_len(self.entries());
    }

    /// The stored entries are sorted by address, each 32 bytes long, and
    /// denote the ledger.
    pub proof fn lemma_entries_sorted(&self)
        requires
            self.wf(),
        ensures
            sorted_by_address(self.entries()),
            keys_sized(self.entries()),
            self@ == ledger_map(self.entries()),
    {
        assert forall|i: int| 0 <= i < self.entries().len() implies #[trigger] self.entries()[i].0.len()
            == 32 by {
            assert(self.entries()[i].0 == self.bank@[i].0@);
        }
    }
}


/// A region whose first four bytes are zero, as a freshly allocated
/// zero-filled one, holds the empty ledger.
pub proof fn lemma_zeroed_region(raw: Seq<u8>)
    requires
        raw.len() >= 4,
        raw[0] == 0,
        raw[1] == 0,
        raw[2] == 0,
        raw[3] == 0,
    ensures
        ledger_of(raw) == Map::<Seq<u8>, u64>::empty(),
{
    let z: u8 = 0;
    assert((z as u32) | (z as u32) << 8 | (z as u32) << 16 | (z as u32) << 24 == 0) by (bit_vector)
        requires
            z == 0,
    ;
    assert(count_of(raw) == 0);
    assert(Seq::new(0, |i: int| entry_at(raw, i)) =~= Seq::<(Seq<u8>, u64)>::empty());
}

/// The empty ledger reports a zero balance for every address, and an empty
/// region holds the empty ledger.
pub proof fn lemma_empty_ledger(addr: Seq<u8>)
    ensures
        spec_balance(Map::empty(), addr) == 0,
        ledger_of(Seq::empty()) == Map::<Seq<u8>, u64>::empty(),
{
}

} // verus!
