use std::sync::Arc;

use vstd::prelude::*;

use crate::builder::ConfigBuilder;
use crate::value::{lookup, Node, Table, Value};

verus! {

/// An immutable snapshot of the merged configuration, shared by reference count.
#[derive(Clone, Debug)]
pub struct Config {
    inner: Arc<Table>,
}

impl Config {
    /// The model of the merged table.
    pub closed spec fn table(&self) -> Seq<(Seq<char>, Node)> {
        (*self.inner)@
    }

    /// A configuration holding `table`.
    pub fn from_table(table: Table) -> (r: Config)
        ensures
            r.table() == table@,
    {
        Config { inner: Arc::new(table) }
    }

    /// A builder with no sources yet.
    pub fn builder() -> (r: ConfigBuilder)
        ensures
            r.sources() == Seq::<crate::builder::SourceView>::empty(),
    {
        ConfigBuilder::new()
    }

    /// The raw value of the top-level section `key`, if there is one.
    pub fn section(&self, key: &str) -> (r: Option<&Value>)
        ensures
            match lookup(self.table(), key@) {
                Some(n) => r matches Some(v) && v.node() == n,
                None => r is None,
            },
    {
        self.inner.get(key)
    }

    /// The merged table.
    pub fn table_ref(&self) -> (r: &Table)
        ensures
            r@ == self.table(),
    {
        &self.inner
    }
}

} // verus!
