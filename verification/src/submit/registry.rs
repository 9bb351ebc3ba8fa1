//! Phase 2, the lookup: which node stands for which operation.

use crate::name_map::NameMap;
use crate::submit::plan::{ConstraintView, ExecutionConstraint, StepKind, StepView};
use vstd::prelude::*;

verus! {

/// For each kind of operation, the node that stands for the operation on a
/// bookmark. An operation that the plan does not contain is not registered.
#[derive(Debug)]
pub struct NodeRegistry {
    push: NameMap<usize>,
    update: NameMap<usize>,
    create: NameMap<usize>,
    publish: NameMap<usize>,
}

/// The view of a [`NodeRegistry`]: one map for each kind of operation, and
/// the number of operations that are registered.
pub struct RegistryView {
    pub push: Map<Seq<char>, usize>,
    pub update: Map<Seq<char>, usize>,
    pub create: Map<Seq<char>, usize>,
    pub publish: Map<Seq<char>, usize>,
    pub count: nat,
}

impl RegistryView {
    /// The registry that holds nothing.
    pub open spec fn empty() -> RegistryView {
        RegistryView {
            push: Map::empty(),
            update: Map::empty(),
            create: Map::empty(),
            publish: Map::empty(),
            count: 0,
        }
    }

    /// The map for one kind of operation.
    pub open spec fn of_kind(self, kind: StepKind) -> Map<Seq<char>, usize> {
        match kind {
            StepKind::Push => self.push,
            StepKind::UpdateBase => self.update,
            StepKind::CreatePr => self.create,
            StepKind::PublishPr => self.publish,
        }
    }

    /// The node registered for the operation of kind `kind` on `name`.
    pub open spec fn lookup(self, kind: StepKind, name: Seq<char>) -> Option<usize> {
        if self.of_kind(kind).contains_key(name) {
            Some(self.of_kind(kind)[name])
        } else {
            None
        }
    }

    /// The registry after node `idx` was registered for the operation of
    /// kind `kind` on `name`. An earlier node for that operation gives way.
    pub open spec fn with(self, kind: StepKind, name: Seq<char>, idx: usize) -> RegistryView {
        let count = if self.of_kind(kind).contains_key(name) {
            self.count
        } else {
            self.count + 1
        };
        match kind {
            StepKind::Push => RegistryView { push: self.push.insert(name, idx), count, ..self },
            StepKind::UpdateBase => RegistryView {
                update: self.update.insert(name, idx),
                count,
                ..self
            },
            StepKind::CreatePr => RegistryView {
                create: self.create.insert(name, idx),
                count,
                ..self
            },
            StepKind::PublishPr => RegistryView {
                publish: self.publish.insert(name, idx),
                count,
                ..self
            },
        }
    }

    /// The two nodes that an obligation joins, if both are registered.
    pub open spec fn resolve(self, constraint: ConstraintView) -> Option<(usize, usize)> {
        let from = self.lookup(constraint.first().0, constraint.first().1);
        let to = self.lookup(constraint.second().0, constraint.second().1);
        if from is Some && to is Some {
            Some((from->0, to->0))
        } else {
            None
        }
    }
}

impl NodeRegistry {
    /// The registry as maps and a count.
    pub closed spec fn view(&self) -> RegistryView {
        RegistryView {
            push: self.push@,
            update: self.update@,
            create: self.create@,
            publish: self.publish@,
            count: self.push.names().len() + self.update.names().len() + self.create.names().len()
                + self.publish.names().len(),
        }
    }

    /// A registry that holds nothing.
    pub fn new() -> (r: Self)
        ensures
            r@ == RegistryView::empty(),
    {
        NodeRegistry {
            push: NameMap::new(),
            update: NameMap::new(),
            create: NameMap::new(),
            publish: NameMap::new(),
        }
    }

    /// Registers node `idx` as the push of `name`.
    pub fn register_push(&mut self, name: &str, idx: usize)
        ensures
            final(self)@ == old(self)@.with(StepKind::Push, name@, idx),
    {
        self.push.insert(String::from_str(name), idx);
    }

    /// Registers node `idx` as the change of base for `name`.
    pub fn register_update(&mut self, name: &str, idx: usize)
        ensures
            final(self)@ == old(self)@.with(StepKind::UpdateBase, name@, idx),
    {
        self.update.insert(String::from_str(name), idx);
    }

    /// Registers node `idx` as the creation of the pull request for `name`.
    pub fn register_create(&mut self, name: &str, idx: usize)
        ensures
            final(self)@ == old(self)@.with(StepKind::CreatePr, name@, idx),
    {
        self.create.insert(String::from_str(name), idx);
    }

    /// Registers node `idx` as the publication of the pull request for `name`.
    pub fn register_publish(&mut self, name: &str, idx: usize)
        ensures
            final(self)@ == old(self)@.with(StepKind::PublishPr, name@, idx),
    {
        self.publish.insert(String::from_str(name), idx);
    }

    /// Registers node `idx` for the operation of kind `kind` on `name`.
    pub fn register(&mut self, kind: StepKind, name: &str, idx: usize)
        ensures
            final(self)@ == old(self)@.with(kind, name@, idx),
    {
        match kind {
            StepKind::Push => self.register_push(name, idx),
            StepKind::UpdateBase => self.register_update(name, idx),
            StepKind::CreatePr => self.register_create(name, idx),
            StepKind::PublishPr => self.register_publish(name, idx),
        }
    }

    /// The node registered for the operation of kind `kind` on `name`.
    pub fn lookup(&self, kind: StepKind, name: &str) -> (r: Option<usize>)
        ensures
            r == self@.lookup(kind, name@),
    {
        let found = match kind {
            StepKind::Push => self.push.get(name),
            StepKind::UpdateBase => self.update.get(name),
            StepKind::CreatePr => self.create.get(name),
            StepKind::PublishPr => self.publish.get(name),
        };
        match found {
            Some(idx) => Some(*idx),
            None => None,
        }
    }

    /// The number of operations that are registered.
    pub fn len(&self) -> (n: usize)
        requires
            self@.count <= usize::MAX,
        ensures
            n == self@.count,
    {
        self.push.len() + self.update.len() + self.create.len() + self.publish.len()
    }
}

impl ExecutionConstraint {
    /// The two nodes that the obligation joins, or nothing where either of
    /// its operations is not part of the plan.
    pub fn resolve(&self, registry: &NodeRegistry) -> (r: Option<(usize, usize)>)
        ensures
            r == registry@.resolve(self@),
    {
        let (from, to) = match self {
            ExecutionConstraint::PushOrder { parent, child } => (
                registry.lookup(StepKind::Push, parent.0.as_str()),
                registry.lookup(StepKind::Push, child.0.as_str()),
            ),
            ExecutionConstraint::PushBeforeRetarget { base, pr } => (
                registry.lookup(StepKind::Push, base.0.as_str()),
                registry.lookup(StepKind::UpdateBase, pr.0.as_str()),
            ),
            ExecutionConstraint::RetargetBeforePush { pr, old_base } => (
                registry.lookup(StepKind::UpdateBase, pr.0.as_str()),
                registry.lookup(StepKind::Push, old_base.0.as_str()),
            ),
            ExecutionConstraint::PushBeforeCreate { push, create } => (
                registry.lookup(StepKind::Push, push.0.as_str()),
                registry.lookup(StepKind::CreatePr, create.0.as_str()),
            ),
            ExecutionConstraint::CreateOrder { parent, child } => (
                registry.lookup(StepKind::CreatePr, parent.0.as_str()),
                registry.lookup(StepKind::CreatePr, child.0.as_str()),
            ),
        };
        match (from, to) {
            (Some(a), Some(b)) => Some((a, b)),
            _ => None,
        }
    }
}

} // verus!
