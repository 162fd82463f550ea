//! The engine that the transaction layer writes to, and its builder.

use crate::engine::db::{
    lemma_first_missing, BatchOpView, Cf, CfName, Db, DbView, Engines, WriteBatch,
};
use crate::storage::types::{modifies_view, Modify};
use vstd::prelude::*;

verus! {

/// The path that stands for "keep the data in a place of its own that goes with the
/// engine".
pub const TEMP_DIR: &'static str = "";

/// What the engine can refuse.
#[derive(Clone, Copy, Debug, PartialEq, Eq, Structural)]
pub enum Error {
    /// A write without changes.
    EmptyRequest,
    /// The database has refused.
    Engine(crate::engine::db::Error),
}

pub type Result<T> = core::result::Result<T, Error>;

/// Writes the changes to the data database, all of them or, where one goes to a column
/// family that the database lacks, none.
pub fn write_modifies(engine: &mut Engines, modifies: Vec<Modify>) -> (r: Result<()>)
    requires
        old(engine).wf(),
    ensures
        final(engine).wf(),
        final(engine).raft == old(engine).raft,
        old(engine).kv@.accepts(modifies_view(modifies@)) ==> r is Ok && final(engine).kv@
            == old(engine).kv@.apply_all(modifies_view(modifies@)),
        !old(engine).kv@.accepts(modifies_view(modifies@)) ==> r == Err::<(), Error>(
            Error::Engine(
                crate::engine::db::Error::CfNotFound(
                    old(engine).kv@.first_missing(modifies_view(modifies@)),
                ),
            ),
        ) && final(engine).kv@ == old(engine).kv@,
{
    let mut wb = WriteBatch::new();
    let ghost ops = modifies_view(modifies@);
    let n: usize = modifies.len();
    let mut i: usize = 0;
    assert(ops.take(0) =~= Seq::<BatchOpView>::empty());
    while i < n
        invariant
            i <= n,
            n == modifies@.len(),
            ops == modifies_view(modifies@),
            *engine == *old(engine),
            engine.wf(),
            wb@ == ops.take(i as int),
            engine.kv@.accepts(ops.take(i as int)),
        decreases n - i,
    {
        let rev = &modifies[i];
        assert(ops[i as int] == rev@);
        let cf = match rev {
            Modify::Delete(cf, _) => *cf,
            Modify::Put(cf, _, _) => *cf,
            Modify::DeleteRange(cf, _, _) => *cf,
        };
        if !engine.kv.has_cf(cf) {
            proof {
                lemma_first_missing(engine.kv@, ops, i as int);
            }
            return Err(Error::Engine(crate::engine::db::Error::CfNotFound(cf)));
        }
        match rev {
            Modify::Delete(cf, k) => {
                if *cf == Cf::Default {
                    wb.delete(k.as_slice());
                } else {
                    wb.delete_cf(*cf, k.as_slice());
                }
            },
            Modify::Put(cf, k, v) => {
                if *cf == Cf::Default {
                    wb.put(k.as_slice(), v.as_slice());
                } else {
                    wb.put_cf(*cf, k.as_slice(), v.as_slice());
                }
            },
            Modify::DeleteRange(cf, start_key, end_key) => {
                wb.delete_range_cf(*cf, start_key.as_slice(), end_key.as_slice());
            },
        }
        i += 1;
        proof {
            assert(ops.take(i as int) =~= ops.take(i - 1).push(ops[i - 1]));
            assert forall|j: int| 0 <= j < i implies engine.kv@.has_cf(
                #[trigger] ops.take(i as int)[j].cf(),
            ) by {
                if j < i - 1 {
                    assert(ops.take(i - 1)[j] == ops.take(i as int)[j]);
                }
            }
        }
    }
    assert(ops.take(n as int) =~= ops);
    match engine.write_kv(&wb) {
        Ok(()) => Ok(()),
        Err(e) => Err(Error::Engine(e)),
    }
}

/// The engine of a store. It keeps its data in memory.
pub struct RocksEngine {
    engines: Engines,
    path: String,
}

impl View for RocksEngine {
    type V = DbView;

    closed spec fn view(&self) -> DbView {
        self.engines.kv@
    }
}

impl RocksEngine {
    pub closed spec fn wf(&self) -> bool {
        self.engines.wf()
    }

    /// Every column family holds finitely many keys.
    pub proof fn lemma_finite(&self, cf: Cf)
        requires
            self@.has_cf(cf),
        ensures
            self@.cf(cf).dom().finite(),
    {
        self.engines.kv.lemma_finite(cf);
    }

    /// The path that the engine was made for.
    pub closed spec fn spec_path(&self) -> Seq<char> {
        self.path@
    }

    /// An empty engine for `path` with the default column family and those of `cfs`.
    pub fn new(path: &str, cfs: &[CfName]) -> (r: Result<RocksEngine>)
        ensures
            r matches Ok(e) && e.wf() && e.spec_path() == path@ && (forall|cf: Cf|
                e@.has_cf(cf) == (cf == Cf::Default || exists|i: int|
                    0 <= i < cfs@.len() && cfs@[i] == cf)) && (forall|cf: Cf| #[trigger]
                e@.has_cf(cf) ==> e@.cf(cf) == Map::<Seq<u8>, Seq<u8>>::empty()),
    {
        let db = Db::new(cfs);
        let raft = Db::new(cfs);
        Ok(RocksEngine { engines: Engines::new(db, raft), path: path.to_owned() })
    }

    /// The data database.
    pub fn get_rocksdb(&self) -> (r: &Db)
        ensures
            r@ == self@,
            self.wf() ==> r.wf(),
    {
        &self.engines.kv
    }

    /// Ends the work of the engine: in memory there is none to end.
    pub fn stop(&self) {
    }

    /// A view of the data that later writes do not reach.
    pub fn snapshot(&self) -> (r: Db)
        requires
            self.wf(),
        ensures
            r.wf(),
            r@ == self@,
    {
        self.engines.kv.snapshot()
    }

    /// Writes the changes, all of them or none. A write without changes is refused.
    pub fn write(&mut self, modifies: Vec<Modify>) -> (r: Result<()>)
        requires
            old(self).wf(),
        ensures
            final(self).wf(),
            final(self).spec_path() == old(self).spec_path(),
            modifies@.len() == 0 ==> r == Err::<(), Error>(Error::EmptyRequest) && final(self)@
                == old(self)@,
            modifies@.len() > 0 && old(self)@.accepts(modifies_view(modifies@)) ==> r is Ok
                && final(self)@ == old(self)@.apply_all(modifies_view(modifies@)),
            modifies@.len() > 0 && !old(self)@.accepts(modifies_view(modifies@)) ==> r == Err::<
                (),
                Error,
            >(
                Error::Engine(
                    crate::engine::db::Error::CfNotFound(
                        old(self)@.first_missing(modifies_view(modifies@)),
                    ),
                ),
            ) && final(self)@ == old(self)@,
    {
        if modifies.len() == 0 {
            return Err(Error::EmptyRequest);
        }
        write_modifies(&mut self.engines, modifies)
    }
}

/// The column families of a store.
pub fn all_cfs() -> (r: Vec<CfName>)
    ensures
        r@ == seq![Cf::Default, Cf::Lock, Cf::Write, Cf::Raft],
{
    vec![Cf::Default, Cf::Lock, Cf::Write, Cf::Raft]
}

/// Builds an engine for tests.
#[must_use]
pub struct TestEngineBuilder {
    path: Option<String>,
    cfs: Option<Vec<CfName>>,
}

impl TestEngineBuilder {
    /// The path asked for, if one was.
    pub closed spec fn spec_path(&self) -> Option<Seq<char>> {
        match self.path {
            Some(p) => Some(p@),
            None => None,
        }
    }

    /// The column families asked for, if any were.
    pub closed spec fn spec_cfs(&self) -> Option<Seq<Cf>> {
        match self.cfs {
            Some(c) => Some(c@),
            None => None,
        }
    }

    /// A builder that asks for nothing.
    pub fn new() -> (r: Self)
        ensures
            r.spec_path() is None,
            r.spec_cfs() is None,
    {
        Self { path: None, cfs: None }
    }

    /// Asks for `path` as the place of the data. Without that, `TEMP_DIR` is used.
    pub fn path(self, path: &str) -> (r: Self)
        ensures
            r.spec_path() == Some(path@),
            r.spec_cfs() == self.spec_cfs(),
    {
        let mut b = self;
        b.path = Some(path.to_owned());
        b
    }

    /// Asks for the column families `cfs`. Without that, the engine has all.
    pub fn cfs(self, cfs: &[CfName]) -> (r: Self)
        ensures
            r.spec_cfs() == Some(cfs@),
            r.spec_path() == self.spec_path(),
    {
        let mut b = self;
        let mut out: Vec<CfName> = Vec::new();
        let mut i: usize = 0;
        while i < cfs.len()
            invariant
                i <= cfs@.len(),
                out@ == cfs@.take(i as int),
            decreases cfs@.len() - i,
        {
            out.push(cfs[i]);
            i += 1;
            assert(out@ =~= cfs@.take(i as int));
        }
        assert(cfs@.take(i as int) =~= cfs@);
        b.cfs = Some(out);
        b
    }

    /// The column families that the engine will have besides the default one.
    pub open spec fn wanted(&self) -> Seq<Cf> {
        match self.spec_cfs() {
            Some(c) => c,
            None => seq![Cf::Default, Cf::Lock, Cf::Write, Cf::Raft],
        }
    }

    /// Builds the engine: empty, at the path asked for, with the column families asked
    /// for.
    pub fn build(self) -> (r: Result<RocksEngine>)
        ensures
            r matches Ok(e) && e.wf() && e.spec_path() == (match self.spec_path() {
                Some(p) => p,
                None => TEMP_DIR@,
            }) && (forall|cf: Cf|
                e@.has_cf(cf) == (cf == Cf::Default || self.wanted().contains(cf))) && (forall|
                cf: Cf,
            | #[trigger] e@.has_cf(cf) ==> e@.cf(cf) == Map::<Seq<u8>, Seq<u8>>::empty()),
    {
        let cfs: Vec<CfName> = match self.cfs {
            Some(c) => c,
            None => all_cfs(),
        };
        match self.path {
            Some(p) => RocksEngine::new(p.as_str(), cfs.as_slice()),
            None => RocksEngine::new(TEMP_DIR, cfs.as_slice()),
        }
    }
}

} // verus!
