use vstd::prelude::*;
use crate::entity::Entity;

verus! {

/// A stored component value: a plain integer payload, an owning reference
/// to a target entity, or the member list of a collection component. The
/// member list is maintained only by the relationship index.
#[derive(Clone, PartialEq, Eq, Debug)]
pub enum Value {
    Int(i64),
    Target(Entity),
    Members(Vec<Entity>),
}

/// The mathematical shape of a `Value`: member lists become sequences.
pub enum SValue {
    SInt(i64),
    STarget(Entity),
    SMembers(Seq<Entity>),
}

impl View for Value {
    type V = SValue;

    open spec fn view(&self) -> SValue {
        match self {
            Value::Int(v) => SValue::SInt(*v),
            Value::Target(e) => SValue::STarget(*e),
            Value::Members(m) => SValue::SMembers(m@),
        }
    }
}

impl Value {
    /// An equal copy; member lists are copied element by element.
    pub fn duplicate(&self) -> (r: Value)
        ensures
            r@ == self@,
    {
        match self {
            Value::Int(v) => Value::Int(*v),
            Value::Target(e) => Value::Target(*e),
            Value::Members(m) => {
                let mut out: Vec<Entity> = Vec::new();
                let mut i: usize = 0;
                while i < m.len()
                    invariant
                        i <= m.len(),
                        out@ == m@.take(i as int),
                    decreases m.len() - i,
                {
                    proof {
                        assert(m@.take(i as int + 1) =~= m@.take(i as int).push(m@[i as int]));
                    }
                    out.push(m[i]);
                    i = i + 1;
                }
                proof {
                    assert(m@.take(m@.len() as int) =~= m@);
                }
                Value::Members(out)
            },
        }
    }
}

} // verus!
