//! Plugins extend an app when added.

use vstd::prelude::*;
use std::any::TypeId;

use crate::app::app::App;
use crate::util::label::{type_id_of, find_type_id};

verus! {

/// An extension of an app.  A plugin is identified by its type.
pub trait Plugin: 'static {
    fn build(&self, app: &mut App)
        requires
            old(app).wf(),
        ensures
            final(app).wf(),
    ;

    fn is_unique(&self) -> bool {
        true
    }

    fn finish(&self, app: &mut App)
        requires
            old(app).wf(),
        ensures
            final(app).wf(),
    {
    }

    fn cleanup(&self, app: &mut App)
        requires
            old(app).wf(),
        ensures
            final(app).wf(),
    {
    }

    fn plugin_key(&self) -> TypeId {
        type_id_of::<Self>()
    }
}

/// The types of the unique plugins an app has built.
pub struct Plugins {
    names: Vec<TypeId>,
}

impl Plugins {
    pub closed spec fn names(&self) -> Seq<TypeId> {
        self.names@
    }

    pub fn new() -> (r: Plugins)
        ensures
            r.names() == Seq::<TypeId>::empty(),
    {
        Plugins { names: Vec::new() }
    }

    /// Records the plugin's type; false when a unique plugin of that type
    /// was added before.
    pub(crate) fn add_name<P: Plugin>(&mut self, plugin: &P) -> (r: bool)
        ensures
            !r ==> final(self).names() == old(self).names(),
            r ==> final(self).names() == old(self).names() || {
                &&& final(self).names().len() == old(self).names().len() + 1
                &&& old(self).names().is_prefix_of(final(self).names())
                &&& !old(self).names().contains(final(self).names().last())
            },
            old(self).names().no_duplicates() ==> final(self).names().no_duplicates(),
    {
        if plugin.is_unique() {
            let key = plugin.plugin_key();
            if find_type_id(&self.names, &key).is_some() {
                return false;
            }
            self.names.push(key);
            proof {
                let n = self.names@;
                assert(old(self).names@.is_prefix_of(n));
                assert(n.last() == key);
                assert forall|a: int, b: int| 0 <= a < n.len() && 0 <= b < n.len() && a != b
                    && old(self).names@.no_duplicates() implies n[a] != n[b] by {
                    if a == n.len() - 1 {
                        assert(old(self).names@.contains(n[b]));
                    } else if b == n.len() - 1 {
                        assert(old(self).names@.contains(n[a]));
                    }
                }
            }
        }
        true
    }

    pub(crate) fn contains_key(&self, key: &TypeId) -> (r: bool)
        ensures
            r == self.names().contains(*key),
    {
        find_type_id(&self.names, key).is_some()
    }

}

impl Default for Plugins {
    fn default() -> (r: Plugins) {
        Plugins::new()
    }
}

} // verus!
