//! Choosing the object that a click selects.

use vstd::prelude::*;

verus! {

/// An entity on the way from the clicked entity up to the top of the scene.
#[derive(Clone, Copy, Debug, PartialEq, Eq, Structural)]
pub struct ChainLink {
    pub entity: u64,
    /// Whether the entity carries an object.
    pub is_object: bool,
}

/// The outcome of a click.
#[derive(Clone, Copy, Debug, PartialEq, Eq, Structural)]
pub struct Selection {
    /// The entity that becomes the selected one.
    pub entity: u64,
    /// Whether that is another entity than the clicked one, so that the
    /// selection of the clicked one has to be taken back.
    pub redirected: bool,
}

/// The place in the chain at which the climb from the clicked entity ends,
/// among the first `upto` links: at the first link that carries an object.
pub open spec fn first_object(chain: Seq<ChainLink>, upto: int) -> Option<int>
    decreases upto,
{
    if upto <= 0 {
        None
    } else {
        match first_object(chain, upto - 1) {
            Some(i) => Some(i),
            None => if chain[upto - 1].is_object {
                Some(upto - 1)
            } else {
                None
            },
        }
    }
}

/// The entity that a click selects: the clicked entity, the first link of
/// the chain, if it carries an object; else the nearest entity above it that
/// does; else the topmost entity.
pub open spec fn selected(chain: Seq<ChainLink>) -> Selection {
    let place = match first_object(chain, chain.len() as int) {
        Some(i) => i,
        None => chain.len() - 1,
    };
    Selection { entity: chain[place].entity, redirected: chain[place].entity != chain[0].entity }
}

/// Decides which entity a click selects. The chain starts with the clicked
/// entity and goes on with its parent, the parent of that, and so on to the
/// top. An empty chain selects nothing.
pub fn process_select_event(chain: &Vec<ChainLink>) -> (r: Option<Selection>)
    ensures
        chain@.len() == 0 ==> r is None,
        chain@.len() > 0 ==> r == Some(selected(chain@)),
{
    if chain.len() == 0 {
        return None;
    }
    let target = chain[0].entity;
    let mut i: usize = 0;
    while i < chain.len()
        invariant
            0 <= i <= chain.len(),
            chain.len() > 0,
            target == chain@[0].entity,
            first_object(chain@, i as int) is None,
        decreases chain.len() - i,
    {
        if chain[i].is_object {
            proof {
                lemma_first_object_stays(chain@, i + 1, chain@.len() as int);
            }
            return Some(
                Selection { entity: chain[i].entity, redirected: chain[i].entity != target },
            );
        }
        i += 1;
    }
    let last = chain[chain.len() - 1].entity;
    Some(Selection { entity: last, redirected: last != target })
}

/// A first object among fewer links is the first among more.
pub proof fn lemma_first_object_stays(chain: Seq<ChainLink>, fewer: int, more: int)
    requires
        fewer <= more,
        first_object(chain, fewer) is Some,
    ensures
        first_object(chain, more) == first_object(chain, fewer),
    decreases more - fewer,
{
    if fewer < more {
        lemma_first_object_stays(chain, fewer, more - 1);
    }
}

} // verus!
