//! Context plugins: what every plugin offers, and how one is described.

use crate::config::Config;
use crate::order::{sort_by_keys, sorted_by, values};
use vstd::prelude::*;

verus! {

/// No key stands twice among `pairs`: they are what a map from keys to values
/// holds.
pub open spec fn keys_distinct(pairs: Seq<(String, String)>) -> bool {
    forall|i: int, j: int|
        0 <= i < j < pairs.len() ==> (#[trigger] pairs[i]).0@ != (#[trigger] pairs[j]).0@
}

/// What a plugin is given to work with.
pub struct PluginContext<'a> {
    /// The agent's root directory.
    pub root: &'a str,
    pub config: &'a Config,
    /// The number of the current iteration.
    pub iteration: usize,
    /// Further facts, as pairs of a key and a value; no key stands twice.
    pub data: Vec<(String, String)>,
}

impl<'a> PluginContext<'a> {
    /// Whether the context is as it is meant to be: no key of its further
    /// facts stands twice.
    pub open spec fn is_well_formed(&self) -> bool {
        keys_distinct(self.data@)
    }
}

/// What a plugin is and how it is to be treated.
#[derive(Debug, Clone)]
pub struct PluginMeta {
    /// The name that identifies the plugin.
    pub name: String,
    pub description: String,
    pub version: String,
    /// Whether what the plugin returns comes from outside and is not to be trusted.
    pub is_external: bool,
    /// Plugins with a lower priority run first.
    pub priority: i32,
}

/// What a plugin returns.
pub struct PluginResult {
    /// The section of context that the plugin made.
    pub content: String,
    /// What looked suspicious in it.
    pub warnings: Vec<String>,
    /// Notes for logs, as pairs of a key and a value; no key stands twice.
    pub metadata: Vec<(String, String)>,
}

impl PluginResult {
    /// Whether the result is as it is meant to be: no key of its notes stands
    /// twice.
    pub open spec fn is_well_formed(&self) -> bool {
        keys_distinct(self.metadata@)
    }
}

/// What a plugin can fail with.
#[derive(Debug)]
pub enum PluginError {
    InitializationFailed(String),
    ExecutionFailed(String),
    DependencyNotFound(String),
    InvalidConfiguration(String),
}

impl PluginError {
    /// The text that the error reports under.
    pub open spec fn message_text(self) -> Seq<char> {
        match self {
            PluginError::InitializationFailed(m) => "Plugin initialization failed: "@ + m@,
            PluginError::ExecutionFailed(m) => "Plugin execution failed: "@ + m@,
            PluginError::DependencyNotFound(m) => "Plugin dependency not found: "@ + m@,
            PluginError::InvalidConfiguration(m) => "Plugin configuration invalid: "@ + m@,
        }
    }

    /// A line of text that says what failed.
    pub fn message(&self) -> (msg: String)
        ensures
            msg@ == self.message_text(),
    {
        let (head, detail) = match self {
            PluginError::InitializationFailed(m) => ("Plugin initialization failed: ", m),
            PluginError::ExecutionFailed(m) => ("Plugin execution failed: ", m),
            PluginError::DependencyNotFound(m) => ("Plugin dependency not found: ", m),
            PluginError::InvalidConfiguration(m) => ("Plugin configuration invalid: ", m),
        };
        let mut msg = head.to_owned();
        msg.append(detail.as_str());
        msg
    }
}

/// Builds a `PluginMeta` field by field.
pub struct PluginMetaBuilder {
    name: String,
    description: String,
    version: String,
    is_external: bool,
    priority: i32,
}

impl PluginMetaBuilder {
    /// What `build` would return now.
    pub closed spec fn meta(self) -> PluginMeta {
        PluginMeta {
            name: self.name,
            description: self.description,
            version: self.version,
            is_external: self.is_external,
            priority: self.priority,
        }
    }

    /// Starts the description of the plugin `name`: no description, version
    /// `1.0.0`, internal, priority 100.
    pub fn new(name: &str) -> (b: Self)
        ensures
            b.meta().name@ == name@,
            b.meta().description@ == ""@,
            b.meta().version@ == "1.0.0"@,
            !b.meta().is_external,
            b.meta().priority == 100,
    {
        PluginMetaBuilder {
            name: name.to_owned(),
            description: "".to_owned(),
            version: "1.0.0".to_owned(),
            is_external: false,
            priority: 100,
        }
    }

    /// Sets the description.
    pub fn description(self, desc: &str) -> (b: Self)
        ensures
            b.meta().description@ == desc@,
            b.meta().name == self.meta().name,
            b.meta().version == self.meta().version,
            b.meta().is_external == self.meta().is_external,
            b.meta().priority == self.meta().priority,
    {
        let mut b = self;
        b.description = desc.to_owned();
        b
    }

    /// Sets the version.
    pub fn version(self, ver: &str) -> (b: Self)
        ensures
            b.meta().version@ == ver@,
            b.meta().name == self.meta().name,
            b.meta().description == self.meta().description,
            b.meta().is_external == self.meta().is_external,
            b.meta().priority == self.meta().priority,
    {
        let mut b = self;
        b.version = ver.to_owned();
        b
    }

    /// Says whether what the plugin returns comes from outside.
    pub fn external(self, external: bool) -> (b: Self)
        ensures
            b.meta().is_external == external,
            b.meta().name == self.meta().name,
            b.meta().description == self.meta().description,
            b.meta().version == self.meta().version,
            b.meta().priority == self.meta().priority,
    {
        let mut b = self;
        b.is_external = external;
        b
    }

    /// Sets the priority.
    pub fn priority(self, prio: i32) -> (b: Self)
        ensures
            b.meta().priority == prio,
            b.meta().name == self.meta().name,
            b.meta().description == self.meta().description,
            b.meta().version == self.meta().version,
            b.meta().is_external == self.meta().is_external,
    {
        let mut b = self;
        b.priority = prio;
        b
    }

    /// The metadata as described so far.
    pub fn build(self) -> (m: PluginMeta)
        ensures
            m == self.meta(),
    {
        PluginMeta {
            name: self.name,
            description: self.description,
            version: self.version,
            is_external: self.is_external,
            priority: self.priority,
        }
    }
}

/// What every context plugin offers.
pub trait ContextPlugin: Send + Sync {
    /// What `meta` gives: the metadata of the plugin, as a value. A plugin
    /// that is written without proofs has it as a method that returns a copy
    /// of that metadata.
    spec fn described(&self) -> PluginMeta;

    /// The metadata of the plugin.
    fn meta(&self) -> (m: &PluginMeta)
        ensures
            *m == self.described(),
    ;

    /// Prepares the plugin; called once, before it is first executed. A plugin
    /// that does not say otherwise has nothing to prepare: it stays as it is, and
    /// succeeds.
    fn initialize(&mut self, context: &PluginContext) -> (r: Result<(), PluginError>)
        default_ensures
            r is Ok,
            &*final(self) == &*old(self),
    {
        Ok(())
    }

    /// Makes the plugin's section of context.
    fn execute(&self, context: &PluginContext) -> Result<PluginResult, PluginError>;

    /// Releases what the plugin holds; called when the registry shuts down. A
    /// plugin that does not say otherwise holds nothing: it stays as it is, and
    /// succeeds.
    fn cleanup(&mut self) -> (r: Result<(), PluginError>)
        default_ensures
            r is Ok,
            &*final(self) == &*old(self),
    {
        Ok(())
    }

    /// Whether the plugin is to run in this context. A plugin that does not say
    /// otherwise always runs.
    fn should_run(&self, context: &PluginContext) -> (r: bool)
        default_ensures
            r,
    {
        true
    }
}

/// Whether one of `metas` goes by `name`.
pub open spec fn is_name_of(metas: Seq<PluginMeta>, name: Seq<char>) -> bool {
    exists|i: int| 0 <= i < metas.len() && (#[trigger] metas[i]).name@ == name
}

/// Whether each of `results` stands under the name of one of `metas`.
pub open spec fn are_results_of(
    results: Seq<(String, PluginResult)>,
    metas: Seq<PluginMeta>,
) -> bool {
    forall|k: int| 0 <= k < results.len() ==> is_name_of(metas, (#[trigger] results[k]).0@)
}

/// The names of `metas`, in their order.
pub open spec fn names_of(metas: Seq<PluginMeta>) -> Seq<Seq<char>> {
    Seq::new(metas.len(), |i: int| metas[i].name@)
}

/// The names that `results` stand under, in their order.
pub open spec fn result_names(results: Seq<(String, PluginResult)>) -> Seq<Seq<char>> {
    Seq::new(results.len(), |k: int| results[k].0@)
}

/// Whether `part` is what is left of `whole` when some of its items are taken
/// out: the items of `part` occur in `whole`, each at a place of its own, in
/// the same order.
pub open spec fn is_subsequence(part: Seq<Seq<char>>, whole: Seq<Seq<char>>) -> bool
    decreases whole.len(),
{
    if part.len() == 0 {
        true
    } else if whole.len() == 0 {
        false
    } else {
        (part.last() == whole.last() && is_subsequence(part.drop_last(), whole.drop_last()))
            || is_subsequence(part, whole.drop_last())
    }
}

/// The priorities of `metas`, as sort keys.
pub open spec fn priorities(metas: Seq<PluginMeta>) -> Seq<int> {
    Seq::new(metas.len(), |i: int| metas[i].priority as int)
}

/// A plugin, and the metadata that it gave when it was registered.
struct Slot<P> {
    meta: PluginMeta,
    plugin: P,
}

/// Holds plugins, initializes them in the order of their priorities, and runs
/// them. A plugin is known by the metadata that it gave when it was
/// registered.
pub struct PluginRegistry<P: ContextPlugin> {
    slots: Vec<Slot<P>>,
    initialized: bool,
}

impl<P: ContextPlugin> PluginRegistry<P> {
    /// The metadata of the plugins held, in their order.
    pub closed spec fn metas(&self) -> Seq<PluginMeta> {
        Seq::new(self.slots@.len(), |i: int| self.slots@[i].meta)
    }

    /// Whether the plugins have been initialized.
    pub closed spec fn is_initialized(&self) -> bool {
        self.initialized
    }

    /// A registry without plugins.
    pub fn new() -> (r: Self)
        ensures
            r.metas().len() == 0,
            !r.is_initialized(),
    {
        PluginRegistry { slots: Vec::new(), initialized: false }
    }

    /// Adds a plugin after those that are held, under the metadata that it
    /// gives.
    pub fn register(&mut self, plugin: P)
        ensures
            final(self).metas() == old(self).metas().push(plugin.described()),
            final(self).is_initialized() == old(self).is_initialized(),
    {
        let given = plugin.meta();
        let meta = PluginMeta {
            name: given.name.clone(),
            description: given.description.clone(),
            version: given.version.clone(),
            is_external: given.is_external,
            priority: given.priority,
        };
        assert(meta == plugin.described());
        self.slots.push(Slot { meta, plugin });
        assert(self.metas() =~= old(self).metas().push(meta));
    }

    /// Initializes the plugins, once: sorts them by priority, plugins of equal
    /// priority staying in the order in which they were added, and initializes
    /// each in that order. On the first failure the rest is left alone and the
    /// registry stays uninitialized.
    pub fn initialize(&mut self, context: &PluginContext) -> (r: Result<(), PluginError>)
        ensures
            old(self).is_initialized() ==> r is Ok && final(self).metas() == old(self).metas()
                && final(self).is_initialized(),
            !old(self).is_initialized() ==> final(self).metas() == sorted_by::<i128, PluginMeta>(
                priorities(old(self).metas()),
                old(self).metas(),
            ) && (r is Ok <==> final(self).is_initialized()),
    {
        if self.initialized {
            return Ok(());
        }
        let mut keys: Vec<i128> = Vec::new();
        let mut i: usize = 0;
        while i < self.slots.len()
            invariant
                i <= self.slots.len(),
                keys.len() == i,
                self.slots == old(self).slots,
                forall|k: int| 0 <= k < i ==> keys@[k] == self.slots@[k].meta.priority as int,
            decreases self.slots.len() - i,
        {
            keys.push(self.slots[i].meta.priority as i128);
            i += 1;
        }
        let ghost before = self.metas();
        let order = sort_by_keys(&keys, &mut self.slots);
        proof {
            assert(values(keys@) =~= priorities(before));
            assert(self.metas() =~= sorted_by::<i128, PluginMeta>(priorities(before), before));
        }
        let ghost sorted = self.metas();
        let mut i: usize = 0;
        while i < self.slots.len()
            invariant
                i <= self.slots.len(),
                self.metas() == sorted,
                !self.initialized,
                !old(self).is_initialized(),
                sorted == sorted_by::<i128, PluginMeta>(
                    priorities(old(self).metas()),
                    old(self).metas(),
                ),
            decreases self.slots.len() - i,
        {
            let r = self.slots[i].plugin.initialize(context);
            assert(self.metas() =~= sorted);
            match r {
                Ok(()) => {},
                Err(e) => {
                    return Err(e);
                },
            }
            i += 1;
        }
        self.initialized = true;
        Ok(())
    }

    /// Runs the plugins that are to run, in their order, and returns what each
    /// made, under its name: the names returned are names of the registry, in
    /// the registry's order, each plugin giving at most one. Fails where the
    /// registry is not initialized, and with the failure of the first plugin
    /// that fails; a registry that is initialized and holds no plugin returns
    /// nothing, and succeeds.
    pub fn execute_all(&self, context: &PluginContext) -> (r: Result<
        Vec<(String, PluginResult)>,
        PluginError,
    >)
        ensures
            !self.is_initialized() ==> r is Err && (r->Err_0 matches PluginError::InitializationFailed(
                m,
            ) && m@ == "Registry not initialized"@),
            r is Ok ==> self.is_initialized() && r->Ok_0@.len() <= self.metas().len()
                && are_results_of(r->Ok_0@, self.metas()) && is_subsequence(
                result_names(r->Ok_0@),
                names_of(self.metas()),
            ),
            self.is_initialized() && self.metas().len() == 0 ==> r is Ok && r->Ok_0@.len() == 0,
    {
        if !self.initialized {
            return Err(PluginError::InitializationFailed("Registry not initialized".to_owned()));
        }
        let mut results: Vec<(String, PluginResult)> = Vec::new();
        let mut i: usize = 0;
        let ghost all = names_of(self.metas());
        while i < self.slots.len()
            invariant
                i <= self.slots.len(),
                results@.len() <= i,
                self.initialized,
                are_results_of(results@, self.metas()),
                all == names_of(self.metas()),
                all.len() == self.slots.len(),
                is_subsequence(result_names(results@), all.take(i as int)),
            decreases self.slots.len() - i,
        {
            let slot = &self.slots[i];
            proof {
                assert(all.take(i + 1).drop_last() =~= all.take(i as int));
                assert(all.take(i + 1).last() == self.metas()[i as int].name@);
            }
            if slot.plugin.should_run(context) {
                match slot.plugin.execute(context) {
                    Ok(result) => {
                        let name = slot.meta.name.clone();
                        let ghost before = results@;
                        results.push((name, result));
                        proof {
                            assert(self.metas()[i as int].name@ == name@);
                            assert(is_name_of(self.metas(), name@));
                            assert(result_names(results@).drop_last() =~= result_names(before));
                            assert(result_names(results@).last() == name@);
                            assert forall|k: int| 0 <= k < results@.len() implies is_name_of(
                                self.metas(),
                                (#[trigger] results@[k]).0@,
                            ) by {
                                if k < before.len() {
                                    assert(results@[k] == before[k]);
                                }
                            }
                        }
                    },
                    Err(e) => {
                        return Err(e);
                    },
                }
            }
            i += 1;
        }
        assert(all.take(i as int) =~= all);
        Ok(results)
    }

    /// Cleans up the plugins, in their order, and marks the registry as not
    /// initialized. On the first failure the rest is left alone. A registry
    /// without plugins has nothing that can fail.
    pub fn cleanup(&mut self) -> (r: Result<(), PluginError>)
        ensures
            final(self).metas() == old(self).metas(),
            old(self).metas().len() == 0 ==> r is Ok,
            r is Ok ==> !final(self).is_initialized(),
            r is Err ==> final(self).is_initialized() == old(self).is_initialized(),
    {
        let ghost before = self.metas();
        let mut i: usize = 0;
        while i < self.slots.len()
            invariant
                i <= self.slots.len(),
                self.metas() == before,
                before == old(self).metas(),
                before.len() == self.slots.len(),
                self.initialized == old(self).initialized,
            decreases self.slots.len() - i,
        {
            let r = self.slots[i].plugin.cleanup();
            assert(self.metas() =~= before);
            match r {
                Ok(()) => {},
                Err(e) => {
                    return Err(e);
                },
            }
            i += 1;
        }
        self.initialized = false;
        Ok(())
    }

    /// The names of the plugins held, in their order.
    pub fn plugin_names(&self) -> (names: Vec<&str>)
        ensures
            names@.len() == self.metas().len(),
            forall|i: int| 0 <= i < names@.len() ==> (#[trigger] names@[i])@ == self.metas()[i].name@,
    {
        let mut names: Vec<&str> = Vec::new();
        let mut i: usize = 0;
        while i < self.slots.len()
            invariant
                i <= self.slots.len(),
                names@.len() == i,
                forall|k: int| 0 <= k < i ==> (#[trigger] names@[k])@ == self.metas()[k].name@,
            decreases self.slots.len() - i,
        {
            names.push(self.slots[i].meta.name.as_str());
            i += 1;
        }
        names
    }
}

impl<P: ContextPlugin> Default for PluginRegistry<P> {
    fn default() -> (r: Self)
        ensures
            r.metas().len() == 0,
            !r.is_initialized(),
    {
        PluginRegistry::new()
    }
}

} // verus!
