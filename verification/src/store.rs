//! The storage engine: a table from keys to entries with lazy, access-time
//! expiration and conditional writes. One call to `set` publishes its whole
//! effect on the table at once; `get` never evaluates expiration.

use vstd::prelude::*;
use crate::command::{Command, CommandModel, Expire, SetCond, SetOpts, SetOptsModel};
use crate::protocol::{ProtocolData, ValueModel, clone_bytes, eq_bytes, spec_encodable};

verus! {

/// One stored unit: a value and an optional absolute expiration time in
/// milliseconds since the epoch. No timestamp means the entry never expires.
#[derive(Debug, PartialEq)]
pub struct Entry {
    pub val: Vec<u8>,
    pub expire: Option<u64>,
}

/// The model of a stored entry.
pub struct EntryModel {
    pub val: Seq<u8>,
    pub expire: Option<u64>,
}

impl View for Entry {
    type V = EntryModel;

    open spec fn view(&self) -> EntryModel {
        EntryModel { val: self.val@, expire: self.expire }
    }
}

/// An entry is logically dead once the clock has passed its timestamp.
pub open spec fn entry_expired(e: EntryModel, now_ms: u64) -> bool {
    match e.expire {
        Some(t) => t < now_ms,
        None => false,
    }
}

impl Entry {
    /// True when the entry is logically dead at `curr_ms`.
    pub fn expires(&self, curr_ms: u64) -> (r: bool)
        ensures
            r == entry_expired(self@, curr_ms),
    {
        match self.expire {
            Some(t) => t < curr_ms,
            None => false,
        }
    }
}

/// The mathematical content of the table: the map a key-entry list denotes,
/// later bindings shadowing earlier ones.
pub open spec fn table_of(s: Seq<(Vec<u8>, Entry)>) -> Map<Seq<u8>, EntryModel>
    decreases s.len(),
{
    if s.len() == 0 {
        Map::empty()
    } else {
        table_of(s.drop_last()).insert(s.last().0@, s.last().1@)
    }
}

/// Keys are pairwise distinct, so each key denotes exactly one entry.
pub open spec fn distinct_keys(s: Seq<(Vec<u8>, Entry)>) -> bool {
    forall|i: int, j: int| 0 <= i < j < s.len() ==> (#[trigger] s[i].0@) != (#[trigger] s[j].0@)
}

proof fn lemma_table_push(s: Seq<(Vec<u8>, Entry)>, k: Vec<u8>, e: Entry)
    ensures
        table_of(s.push((k, e))) == table_of(s).insert(k@, e@),
{
    assert(s.push((k, e)).drop_last() =~= s);
    assert(s.push((k, e)).last() == (k, e));
}

proof fn lemma_table_lookup(s: Seq<(Vec<u8>, Entry)>, i: int)
    requires
        distinct_keys(s),
        0 <= i < s.len(),
    ensures
        table_of(s).contains_key(s[i].0@),
        table_of(s)[s[i].0@] == s[i].1@,
    decreases s.len(),
{
    if i == s.len() - 1 {
    } else {
        assert(distinct_keys(s.drop_last()));
        assert(s.drop_last()[i] == s[i]);
        lemma_table_lookup(s.drop_last(), i);
        assert(s[i].0@ != s.last().0@);
    }
}

proof fn lemma_table_absent(s: Seq<(Vec<u8>, Entry)>, k: Seq<u8>)
    requires
        forall|t: int| 0 <= t < s.len() ==> (#[trigger] s[t].0@) != k,
    ensures
        !table_of(s).contains_key(k),
    decreases s.len(),
{
    if s.len() > 0 {
        assert(forall|t: int| 0 <= t < s.drop_last().len() ==> (#[trigger] s.drop_last()[t].0@)
            != k);
        lemma_table_absent(s.drop_last(), k);
        assert(s.last().0@ != k);
    }
}

proof fn lemma_table_remove(s: Seq<(Vec<u8>, Entry)>, i: int)
    requires
        distinct_keys(s),
        0 <= i < s.len(),
    ensures
        table_of(s.remove(i)) == table_of(s).remove(s[i].0@),
    decreases s.len(),
{
    if i == s.len() - 1 {
        assert(s.remove(i) =~= s.drop_last());
        assert(forall|t: int| 0 <= t < s.drop_last().len() ==> (#[trigger] s.drop_last()[t].0@)
            != s[i].0@);
        lemma_table_absent(s.drop_last(), s[i].0@);
        assert(table_of(s.drop_last()).remove(s[i].0@) =~= table_of(s.drop_last()));
        assert(table_of(s).remove(s[i].0@) =~= table_of(s.drop_last()).insert(
            s.last().0@,
            s.last().1@,
        ).remove(s[i].0@));
        assert(table_of(s.drop_last()).insert(s.last().0@, s.last().1@).remove(s[i].0@)
            =~= table_of(s.drop_last()));
    } else {
        assert(distinct_keys(s.drop_last()));
        assert(s.drop_last()[i] == s[i]);
        lemma_table_remove(s.drop_last(), i);
        assert(s.remove(i).drop_last() =~= s.drop_last().remove(i));
        assert(s.remove(i).last() == s.last());
        assert(s[i].0@ != s.last().0@);
        assert(table_of(s.remove(i)) == table_of(s.drop_last().remove(i)).insert(
            s.last().0@,
            s.last().1@,
        ));
        assert(table_of(s.drop_last()).remove(s[i].0@).insert(s.last().0@, s.last().1@)
            =~= table_of(s.drop_last()).insert(s.last().0@, s.last().1@).remove(s[i].0@));
    }
}

/// The timestamp `x`, clipped to what a 64-bit field can hold.
pub open spec fn sat_u64(x: int) -> u64 {
    if x > u64::MAX {
        u64::MAX
    } else {
        x as u64
    }
}

/// Resolves the expiration of a new entry: EX and PX are relative to now,
/// EXAT and PXAT absolute, KEEPTTL carries the stored expiration forward,
/// and no option drops any previous one.
pub open spec fn resolve_expire(e: Option<Expire>, old_exp: Option<u64>, now_ms: u64) -> Option<
    u64,
> {
    match e {
        None => None,
        Some(Expire::EX(s)) => Some(sat_u64(now_ms + s * 1000)),
        Some(Expire::PX(ms)) => Some(sat_u64(now_ms + ms)),
        Some(Expire::EXAT(s)) => Some(sat_u64(s * 1000)),
        Some(Expire::PXAT(ms)) => Some(ms),
        Some(Expire::KEEPTTL) => old_exp,
    }
}

/// The entry a SET sees for its key once expiration has been evaluated:
/// an expired entry counts as absent for the rest of the call.
pub open spec fn live_old(m: Map<Seq<u8>, EntryModel>, key: Seq<u8>, now_ms: u64) -> Option<
    EntryModel,
> {
    if m.contains_key(key) && !entry_expired(m[key], now_ms) {
        Some(m[key])
    } else {
        None
    }
}

/// Whether the SET's condition lets it write: NX needs the key absent,
/// XX present, judged after the expiration check.
pub open spec fn cond_allows(c: Option<SetCond>, present: bool) -> bool {
    match c {
        Some(SetCond::NX) => !present,
        Some(SetCond::XX) => present,
        None => true,
    }
}

pub open spec fn spec_set_applies(m: Map<Seq<u8>, EntryModel>, o: SetOptsModel, now_ms: u64) -> bool {
    cond_allows(o.cond, live_old(m, o.key, now_ms) is Some)
}

/// The table after a SET: an expired entry for the key is removed even
/// when the condition then fails; when the condition holds, the new entry
/// replaces whatever was there, as one step.
pub open spec fn spec_set_table(m: Map<Seq<u8>, EntryModel>, o: SetOptsModel, now_ms: u64) -> Map<
    Seq<u8>,
    EntryModel,
> {
    let m1 = if m.contains_key(o.key) && entry_expired(m[o.key], now_ms) {
        m.remove(o.key)
    } else {
        m
    };
    if spec_set_applies(m, o, now_ms) {
        m1.insert(
            o.key,
            EntryModel {
                val: o.val,
                expire: resolve_expire(
                    o.expire,
                    match live_old(m, o.key, now_ms) {
                        Some(e) => e.expire,
                        None => None,
                    },
                    now_ms,
                ),
            },
        )
    } else {
        m1
    }
}

fn resolve_expire_exec(e: &Option<Expire>, old_exp: Option<u64>, now_ms: u64) -> (r: Option<u64>)
    ensures
        r == resolve_expire(*e, old_exp, now_ms),
{
    match e {
        None => None,
        Some(Expire::EX(s)) => {
            if *s > 18446744073709551u64 {
                proof {
                    assert((*s) * 1000 > u64::MAX) by (nonlinear_arith)
                        requires
                            *s > 18446744073709551u64,
                    ;
                }
                Some(u64::MAX)
            } else {
                proof {
                    assert((*s) * 1000 <= u64::MAX) by (nonlinear_arith)
                        requires
                            *s <= 18446744073709551u64,
                    ;
                }
                let ms: u64 = *s * 1000;
                if now_ms > u64::MAX - ms {
                    Some(u64::MAX)
                } else {
                    Some(now_ms + ms)
                }
            }
        },
        Some(Expire::PX(ms)) => {
            if now_ms > u64::MAX - *ms {
                Some(u64::MAX)
            } else {
                Some(now_ms + *ms)
            }
        },
        Some(Expire::EXAT(s)) => {
            if *s > 18446744073709551u64 {
                proof {
                    assert((*s) * 1000 > u64::MAX) by (nonlinear_arith)
                        requires
                            *s > 18446744073709551u64,
                    ;
                }
                Some(u64::MAX)
            } else {
                proof {
                    assert((*s) * 1000 <= u64::MAX) by (nonlinear_arith)
                        requires
                            *s <= 18446744073709551u64,
                    ;
                }
                Some(*s * 1000)
            }
        },
        Some(Expire::PXAT(ms)) => Some(*ms),
        Some(Expire::KEEPTTL) => old_exp,
    }
}

/// The table. Keys are unique; all access goes through `get` and `set`.
pub struct Store {
    entries: Vec<(Vec<u8>, Entry)>,
}

impl View for Store {
    type V = Map<Seq<u8>, EntryModel>;

    closed spec fn view(&self) -> Map<Seq<u8>, EntryModel> {
        table_of(self.entries@)
    }
}

impl Store {
    pub closed spec fn wf(&self) -> bool {
        distinct_keys(self.entries@)
    }

    /// A fresh, empty table.
    pub fn new() -> (r: Store)
        ensures
            r.wf(),
            r@ == Map::<Seq<u8>, EntryModel>::empty(),
    {
        Store { entries: Vec::new() }
    }

    fn find_idx(&self, key: &Vec<u8>) -> (r: Option<usize>)
        ensures
            match r {
                Some(i) => i < self.entries@.len() && self.entries@[i as int].0@ == key@,
                None => forall|t: int|
                    0 <= t < self.entries@.len() ==> (#[trigger] self.entries@[t].0@) != key@,
            },
    {
        let n = self.entries.len();
        let mut i: usize = 0;
        while i < n
            invariant
                0 <= i <= n,
                n == self.entries@.len(),
                forall|t: int| 0 <= t < i ==> (#[trigger] self.entries@[t].0@) != key@,
            decreases n - i,
        {
            if eq_bytes(&self.entries[i].0, key) {
                return Some(i);
            }
            i = i + 1;
        }
        None
    }

    /// Looks the key up in the table. The read path never evaluates
    /// expiration: a logically expired entry is still returned.
    pub fn get(&self, key: &Vec<u8>) -> (r: Option<Vec<u8>>)
        requires
            self.wf(),
        ensures
            match r {
                Some(v) => self@.contains_key(key@) && v@ == self@[key@].val,
                None => !self@.contains_key(key@),
            },
    {
        match self.find_idx(key) {
            Some(i) => {
                proof {
                    lemma_table_lookup(self.entries@, i as int);
                }
                Some(clone_bytes(&self.entries[i].1.val))
            },
            None => {
                proof {
                    lemma_table_absent(self.entries@, key@);
                }
                None
            },
        }
    }

    /// The stored expiration of the key's entry, if the key is present.
    pub fn expiration(&self, key: &Vec<u8>) -> (r: Option<Option<u64>>)
        requires
            self.wf(),
        ensures
            match r {
                Some(e) => self@.contains_key(key@) && e == self@[key@].expire,
                None => !self@.contains_key(key@),
            },
    {
        match self.find_idx(key) {
            Some(i) => {
                proof {
                    lemma_table_lookup(self.entries@, i as int);
                }
                Some(self.entries[i].1.expire)
            },
            None => {
                proof {
                    lemma_table_absent(self.entries@, key@);
                }
                None
            },
        }
    }

    /// Executes one SET against the table, as one atomic step: evaluates
    /// expiration for the key (removing a dead entry), then the condition,
    /// then writes the new entry. Returns whether the write happened and
    /// the pre-overwrite, post-expiration-check old value.
    #[verifier::loop_isolation(false)]
    pub fn set(&mut self, o: &SetOpts, now_ms: u64) -> (r: (bool, Option<Vec<u8>>))
        requires
            old(self).wf(),
        ensures
            final(self).wf(),
            final(self)@ == spec_set_table(old(self)@, o@, now_ms),
            r.0 == spec_set_applies(old(self)@, o@, now_ms),
            match live_old(old(self)@, o@.key, now_ms) {
                Some(e) => r.1 matches Some(v) && v@ == e.val,
                None => r.1 is None,
            },
    {
        let ghost m0 = table_of(self.entries@);
        match self.find_idx(&o.key) {
            None => {
                proof {
                    lemma_table_absent(self.entries@, o.key@);
                }
                let applies = match o.cond {
                    Some(SetCond::XX) => false,
                    _ => true,
                };
                if applies {
                    let exp = resolve_expire_exec(&o.expire, None, now_ms);
                    let k = clone_bytes(&o.key);
                    let v = clone_bytes(&o.val);
                    proof {
                        lemma_table_push(self.entries@, k, Entry { val: v, expire: exp });
                    }
                    self.entries.push((k, Entry { val: v, expire: exp }));
                }
                (applies, None)
            },
            Some(i) => {
                proof {
                    lemma_table_lookup(self.entries@, i as int);
                }
                if self.entries[i].1.expires(now_ms) {
                    // lazy expiration: the dead entry is removed, and the
                    // key counts as absent for the rest of this call
                    proof {
                        lemma_table_remove(self.entries@, i as int);
                    }
                    let _ = self.entries.remove(i);
                    proof {
                        assert(distinct_keys(self.entries@));
                        lemma_table_absent(self.entries@, o.key@);
                    }
                    let applies = match o.cond {
                        Some(SetCond::XX) => false,
                        _ => true,
                    };
                    if applies {
                        let exp = resolve_expire_exec(&o.expire, None, now_ms);
                        let k = clone_bytes(&o.key);
                        let v = clone_bytes(&o.val);
                        proof {
                            lemma_table_push(self.entries@, k, Entry { val: v, expire: exp });
                            assert(m0.remove(o.key@).insert(
                                o.key@,
                                EntryModel { val: o.val@, expire: exp },
                            ) =~= table_of(self.entries@).insert(
                                o.key@,
                                EntryModel { val: o.val@, expire: exp },
                            ));
                        }
                        self.entries.push((k, Entry { val: v, expire: exp }));
                    }
                    (applies, None)
                } else {
                    let old_val = clone_bytes(&self.entries[i].1.val);
                    let old_exp = self.entries[i].1.expire;
                    let applies = match o.cond {
                        Some(SetCond::NX) => false,
                        _ => true,
                    };
                    if applies {
                        proof {
                            lemma_table_remove(self.entries@, i as int);
                        }
                        let _ = self.entries.remove(i);
                        proof {
                            assert(distinct_keys(self.entries@));
                        }
                        let exp = resolve_expire_exec(&o.expire, old_exp, now_ms);
                        let k = clone_bytes(&o.key);
                        let v = clone_bytes(&o.val);
                        proof {
                            lemma_table_push(self.entries@, k, Entry { val: v, expire: exp });
                            assert(m0.remove(o.key@).insert(
                                o.key@,
                                EntryModel { val: o.val@, expire: exp },
                            ) =~= m0.insert(o.key@, EntryModel { val: o.val@, expire: exp }));
                        }
                        self.entries.push((k, Entry { val: v, expire: exp }));
                    }
                    (applies, Some(old_val))
                }
            },
        }
    }
}

pub open spec fn lit_pong() -> Seq<u8> {
    seq![80u8, 79u8, 78u8, 71u8]
}

pub open spec fn lit_ok() -> Seq<u8> {
    seq![79u8, 75u8]
}

/// The reply one command earns against a given table state.
pub open spec fn spec_reply(m: Map<Seq<u8>, EntryModel>, cmd: CommandModel, now_ms: u64) -> ValueModel {
    match cmd {
        CommandModel::Ping => ValueModel::SimpleString(lit_pong()),
        CommandModel::Echo(p) => ValueModel::SimpleString(p),
        CommandModel::Get(k) => if m.contains_key(k) {
            ValueModel::BulkString(m[k].val)
        } else {
            ValueModel::Null
        },
        CommandModel::SetCmd(o) => if !spec_set_applies(m, o, now_ms) {
            ValueModel::Null
        } else if o.ret_old {
            match live_old(m, o.key, now_ms) {
                Some(e) => ValueModel::BulkString(e.val),
                None => ValueModel::Null,
            }
        } else {
            ValueModel::SimpleString(lit_ok())
        },
    }
}

/// The table after one command: only SET mutates it.
pub open spec fn spec_table_after(m: Map<Seq<u8>, EntryModel>, cmd: CommandModel, now_ms: u64) -> Map<
    Seq<u8>,
    EntryModel,
> {
    match cmd {
        CommandModel::SetCmd(o) => spec_set_table(m, o, now_ms),
        _ => m,
    }
}

impl Store {
    /// Runs one validated command against the table at time `now_ms` and
    /// returns the reply value, which the encoder can always produce.
    pub fn handle_command(&mut self, cmd: Command, now_ms: u64) -> (r: ProtocolData)
        requires
            old(self).wf(),
        ensures
            final(self).wf(),
            final(self)@ == spec_table_after(old(self)@, cmd@, now_ms),
            r@ == spec_reply(old(self)@, cmd@, now_ms),
            spec_encodable(r@),
    {
        match cmd {
            Command::Ping => ProtocolData::SimpleString(vec![80u8, 79u8, 78u8, 71u8]),
            Command::Echo(p) => ProtocolData::SimpleString(p),
            Command::Get(k) => match self.get(&k) {
                Some(v) => {
                    let vl = v.len();
                    proof {
                        assert(v@.len() == vl as int);
                    }
                    ProtocolData::BulkString(v)
                },
                None => ProtocolData::Null,
            },
            Command::SetCmd(o) => {
                let ret_old = o.ret_old;
                let (applied, old_val) = self.set(&o, now_ms);
                if !applied {
                    ProtocolData::Null
                } else if ret_old {
                    match old_val {
                        Some(v) => {
                            let vl = v.len();
                            proof {
                                assert(v@.len() == vl as int);
                            }
                            ProtocolData::BulkString(v)
                        },
                        None => ProtocolData::Null,
                    }
                } else {
                    ProtocolData::SimpleString(vec![79u8, 75u8])
                }
            },
        }
    }
}

/// Law: a SET that was allowed to write stores exactly the given value
/// under the given key.
pub proof fn lemma_set_then_get(m: Map<Seq<u8>, EntryModel>, o: SetOptsModel, now_ms: u64)
    requires
        spec_set_applies(m, o, now_ms),
    ensures
        spec_set_table(m, o, now_ms).contains_key(o.key),
        spec_set_table(m, o, now_ms)[o.key].val == o.val,
{
}

/// Law: NX against a live entry returns null and leaves the table as it
/// was — the stored value survives.
pub proof fn lemma_nx_present_writes_nothing(m: Map<Seq<u8>, EntryModel>, o: SetOptsModel, now_ms: u64)
    requires
        o.cond == Some(SetCond::NX),
        m.contains_key(o.key),
        !entry_expired(m[o.key], now_ms),
    ensures
        spec_set_table(m, o, now_ms) == m,
        spec_reply(m, CommandModel::SetCmd(o), now_ms) == ValueModel::Null,
{
}

/// Law: XX against an absent key returns null and writes nothing.
pub proof fn lemma_xx_absent_writes_nothing(m: Map<Seq<u8>, EntryModel>, o: SetOptsModel, now_ms: u64)
    requires
        o.cond == Some(SetCond::XX),
        !m.contains_key(o.key),
    ensures
        spec_set_table(m, o, now_ms) == m,
        spec_reply(m, CommandModel::SetCmd(o), now_ms) == ValueModel::Null,
{
}

/// Law: a SET that finds the stored entry past its deadline captures the
/// old value as absent, whatever the entry held.
pub proof fn lemma_set_sees_expired_as_absent(m: Map<Seq<u8>, EntryModel>, o: SetOptsModel, now_ms: u64)
    requires
        o.ret_old,
        o.cond is None,
        m.contains_key(o.key),
        entry_expired(m[o.key], now_ms),
    ensures
        spec_reply(m, CommandModel::SetCmd(o), now_ms) == ValueModel::Null,
{
}

/// Law: KEEPTTL carries the live entry's deadline into the new entry.
pub proof fn lemma_keepttl_preserves_deadline(m: Map<Seq<u8>, EntryModel>, o: SetOptsModel, now_ms: u64)
    requires
        o.expire == Some(Expire::KEEPTTL),
        spec_set_applies(m, o, now_ms),
        m.contains_key(o.key),
        !entry_expired(m[o.key], now_ms),
    ensures
        spec_set_table(m, o, now_ms)[o.key].expire == m[o.key].expire,
{
}

} // verus!
