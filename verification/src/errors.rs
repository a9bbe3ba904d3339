use vstd::prelude::*;

verus! {

/// Every failure the runtime reports.
///
/// Configuration errors (`HandlerAlreadySet`, `RequiredCycle`,
/// `InvalidRegistry`) arise while the process is being set up, before the
/// first command batch. All other variants are per-command and
/// recoverable: the offending command is skipped, the failure is routed to
/// the error dispatcher, and the batch continues.
#[derive(Clone, Copy, PartialEq, Eq, Structural, Debug)]
pub enum EcsError {
    /// The identifier does not name a live entity.
    DeadEntity,
    /// An owning component's target entity is not live.
    InvalidTarget,
    /// A queued command refers to an entity despawned earlier in the batch.
    StaleEntity,
    /// The fixed-point drain exceeded its command budget.
    CommandQueueOverflow,
    /// A synchronous write aimed at the very (entity, component) whose
    /// lifecycle hooks are firing. Hooks in this runtime hold a deferred
    /// capability — they can only enqueue commands and fold values into
    /// the accumulator — so no verified path produces this variant; it
    /// names the failure the design rules out.
    ReentrantMutation,
    /// An in-place write to a component of immutable kind.
    ImmutableMutation,
    /// A direct write to a collection component, which only the
    /// relationship index may maintain.
    CollectionNotWritable,
    /// The value's shape does not fit the component type's role.
    ValueKindMismatch,
    /// The component type identifier is not registered.
    UnknownType,
    /// The entity to clone from is not live.
    SourceNotFound,
    /// The clone target already holds a selected component and the
    /// configuration forbids overwriting it.
    DestinationConflict,
    /// Linked cloning ran out of traversal budget, which can only happen
    /// when the relationship graph reaches an entity twice.
    CloneDepthExceeded,
    /// The global error handler was already set.
    HandlerAlreadySet,
    /// A required-component declaration is cyclic or not transitively
    /// closed.
    RequiredCycle,
    /// A relationship pair or hook table breaks a registration rule.
    InvalidRegistry,
    /// A single-match query found no entity.
    NoMatch,
    /// A single-match query found more than one entity.
    MultipleMatches,
}

/// What the global handler does with an error routed to it.
#[derive(Clone, Copy, PartialEq, Eq, Structural, Debug)]
pub enum HandlerPolicy {
    Ignore,
    LogTrace,
    LogDebug,
    LogInfo,
    LogWarn,
    LogError,
    Abort,
}

/// The kind of caller an error originated from.
#[derive(Clone, Copy, PartialEq, Eq, Structural, Debug)]
pub enum OriginKind {
    System,
    Observer,
    Command,
    Hook,
}

/// Identifies the origin of a routed error: its kind plus a numeric name.
#[derive(Clone, Copy, PartialEq, Eq, Structural, Debug)]
pub struct Origin {
    pub kind: OriginKind,
    pub name: u64,
}

/// One error delivered to the handler, with the origin context and the
/// policy that was in force when it arrived.
#[derive(Clone, Copy, PartialEq, Eq, Structural, Debug)]
pub struct HandledError {
    pub origin: Origin,
    pub error: EcsError,
    pub policy: HandlerPolicy,
}

/// The first policy registered for an origin name, if any.
pub open spec fn rule_lookup(rules: Seq<(u64, HandlerPolicy)>, name: u64)
    -> Option<HandlerPolicy>
    decreases rules.len(),
{
    if rules.len() == 0 {
        None
    } else if rules[0].0 == name {
        Some(rules[0].1)
    } else {
        rule_lookup(rules.drop_first(), name)
    }
}

/// The process-wide error-handling slot. The handler is set at most once;
/// every error routed afterwards is recorded in `handled` together with
/// the policy that received it. The handler may choose its policy from
/// the origin's context: a rule keyed by the origin's name shadows the
/// global policy, and a call site's local handler shadows both.
pub struct ErrorDispatch {
    pub handler: Option<HandlerPolicy>,
    /// Origin-name-keyed policy choices the handler applies; first
    /// registration wins.
    pub name_rules: Vec<(u64, HandlerPolicy)>,
    pub handled: Vec<HandledError>,
}

impl ErrorDispatch {
    /// The policy in force when no local override is supplied.
    pub open spec fn effective_policy(self) -> HandlerPolicy {
        match self.handler {
            Some(p) => p,
            None => HandlerPolicy::LogError,
        }
    }

    /// The policy one routed error resolves to: a local override always
    /// wins; otherwise the handler's rule for the origin's name, if any;
    /// otherwise the global policy.
    pub open spec fn resolved(self, origin: Origin, local: Option<HandlerPolicy>)
        -> HandlerPolicy {
        match local {
            Some(p) => p,
            None => match rule_lookup(self.name_rules@, origin.name) {
                Some(p) => p,
                None => self.effective_policy(),
            },
        }
    }

    pub fn new() -> (r: ErrorDispatch)
        ensures
            r.handler is None,
            r.name_rules@.len() == 0,
            r.handled@.len() == 0,
    {
        ErrorDispatch { handler: None, name_rules: Vec::new(), handled: Vec::new() }
    }

    /// Registers the policy the handler applies to errors whose origin
    /// carries this name. Like the handler itself, rules are part of the
    /// startup configuration.
    pub fn add_name_rule(&mut self, name: u64, policy: HandlerPolicy)
        ensures
            final(self).handler == old(self).handler,
            final(self).handled == old(self).handled,
            final(self).name_rules@ == old(self).name_rules@.push((name, policy)),
    {
        self.name_rules.push((name, policy));
    }

    /// Installs the global handler. The slot accepts exactly one write;
    /// a second attempt fails with `HandlerAlreadySet` and changes nothing.
    pub fn set_handler(&mut self, policy: HandlerPolicy) -> (r: Result<(), EcsError>)
        ensures
            match old(self).handler {
                None => {
                    &&& r is Ok
                    &&& final(self).handler == Some(policy)
                    &&& final(self).handled == old(self).handled
                },
                Some(_) => {
                    &&& r == Err::<(), EcsError>(EcsError::HandlerAlreadySet)
                    &&& *final(self) == *old(self)
                },
            },
            final(self).name_rules == old(self).name_rules,
    {
        match self.handler {
            None => {
                self.handler = Some(policy);
                Ok(())
            },
            Some(_) => Err(EcsError::HandlerAlreadySet),
        }
    }

    /// Routes one fallible outcome. A success is discarded; an error is
    /// recorded exactly once, under the local policy when one is supplied
    /// and under the global policy otherwise.
    pub fn route(&mut self, outcome: Result<(), EcsError>, origin: Origin, local: Option<HandlerPolicy>)
        ensures
            final(self).handler == old(self).handler,
            final(self).name_rules == old(self).name_rules,
            match outcome {
                Ok(_) => final(self).handled == old(self).handled,
                Err(e) => final(self).handled@ == old(self).handled@.push(
                    HandledError { origin, error: e, policy: old(self).resolved(origin, local) },
                ),
            },
    {
        match outcome {
            Ok(_) => {},
            Err(e) => {
                let policy = match local {
                    Some(p) => p,
                    None => match self.rule_for(origin.name) {
                        Some(p) => p,
                        None => match self.handler {
                            Some(p) => p,
                            None => HandlerPolicy::LogError,
                        },
                    },
                };
                self.handled.push(HandledError { origin, error: e, policy });
            },
        }
    }

    /// The first registered rule for this origin name, if any.
    pub fn rule_for(&self, name: u64) -> (r: Option<HandlerPolicy>)
        ensures
            r == rule_lookup(self.name_rules@, name),
    {
        let n = self.name_rules.len();
        proof {
            assert(self.name_rules@.skip(0) =~= self.name_rules@);
        }
        let mut k: usize = 0;
        while k < n
            invariant
                n == self.name_rules@.len(),
                k <= n,
                rule_lookup(self.name_rules@, name)
                    == rule_lookup(self.name_rules@.skip(k as int), name),
            decreases n - k,
        {
            proof {
                assert(self.name_rules@.skip(k as int)[0]
                    == self.name_rules@[k as int]);
                assert(self.name_rules@.skip(k as int).drop_first()
                    =~= self.name_rules@.skip(k as int + 1));
            }
            if self.name_rules[k].0 == name {
                return Some(self.name_rules[k].1);
            }
            k = k + 1;
        }
        proof {
            assert(self.name_rules@.skip(n as int) =~= Seq::<(u64, HandlerPolicy)>::empty());
        }
        None
    }
}

} // verus!
