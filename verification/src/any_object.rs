use std::rc::Rc;
use vstd::prelude::*;

use crate::non_volatile::object::tree::InternalNode;
use crate::tree::LeafNode;
use crate::uberblock::Uberblock;

verus! {

/// An object of any kind of the first layout, shared.
#[derive(Debug)]
pub enum AnyObject {
    Uberblock(Rc<Uberblock>),
    LeafNode(Rc<LeafNode<u64, u64>>),
    InternalNode(Rc<InternalNode<u64>>),
}

/// A conversion out of `AnyObject` asked for another kind than it holds.
#[derive(Debug, Clone, Copy, PartialEq, Eq, Structural)]
pub enum ConversionError {
    NotAnUberblock,
    NotALeafNode,
    NotAnInternalNode,
}

impl AnyObject {
    pub fn from_uberblock(this: Uberblock) -> (a: AnyObject)
        ensures
            a matches AnyObject::Uberblock(u) && *u == this,
    {
        AnyObject::Uberblock(Rc::new(this))
    }

    pub fn from_rc_uberblock(this: Rc<Uberblock>) -> (a: AnyObject)
        ensures
            a == AnyObject::Uberblock(this),
    {
        AnyObject::Uberblock(this)
    }

    pub fn from_leaf_node(this: LeafNode<u64, u64>) -> (a: AnyObject)
        ensures
            a matches AnyObject::LeafNode(n) && *n == this,
    {
        AnyObject::LeafNode(Rc::new(this))
    }

    pub fn from_rc_leaf_node(this: Rc<LeafNode<u64, u64>>) -> (a: AnyObject)
        ensures
            a == AnyObject::LeafNode(this),
    {
        AnyObject::LeafNode(this)
    }

    pub fn from_internal_node(this: InternalNode<u64>) -> (a: AnyObject)
        ensures
            a matches AnyObject::InternalNode(n) && *n == this,
    {
        AnyObject::InternalNode(Rc::new(this))
    }

    pub fn from_rc_internal_node(this: Rc<InternalNode<u64>>) -> (a: AnyObject)
        ensures
            a == AnyObject::InternalNode(this),
    {
        AnyObject::InternalNode(this)
    }

    /// The uberblock held, or `NotAnUberblock`.
    pub fn try_into_uberblock(self) -> (r: Result<Rc<Uberblock>, ConversionError>)
        ensures
            match self {
                AnyObject::Uberblock(u) => r == Ok::<Rc<Uberblock>, ConversionError>(u),
                _ => r == Err::<Rc<Uberblock>, ConversionError>(ConversionError::NotAnUberblock),
            },
    {
        match self {
            AnyObject::Uberblock(u) => Ok(u),
            _ => Err(ConversionError::NotAnUberblock),
        }
    }

    /// The leaf held, or `NotALeafNode`.
    pub fn try_into_leaf_node(self) -> (r: Result<Rc<LeafNode<u64, u64>>, ConversionError>)
        ensures
            match self {
                AnyObject::LeafNode(n) => r == Ok::<Rc<LeafNode<u64, u64>>, ConversionError>(n),
                _ => r == Err::<Rc<LeafNode<u64, u64>>, ConversionError>(
                    ConversionError::NotALeafNode,
                ),
            },
    {
        match self {
            AnyObject::LeafNode(n) => Ok(n),
            _ => Err(ConversionError::NotALeafNode),
        }
    }

    /// The inner node held, or `NotAnInternalNode`.
    pub fn try_into_internal_node(self) -> (r: Result<Rc<InternalNode<u64>>, ConversionError>)
        ensures
            match self {
                AnyObject::InternalNode(n) => r == Ok::<Rc<InternalNode<u64>>, ConversionError>(n),
                _ => r == Err::<Rc<InternalNode<u64>>, ConversionError>(
                    ConversionError::NotAnInternalNode,
                ),
            },
    {
        match self {
            AnyObject::InternalNode(n) => Ok(n),
            _ => Err(ConversionError::NotAnInternalNode),
        }
    }
}

} // verus!
