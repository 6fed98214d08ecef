//! The shape of a reply as the protocol client hands it over.

use vstd::prelude::*;

verus! {

/// One reply of the server, held as plain values.
#[derive(Debug)]
pub enum Reply {
    /// The absent value.
    Nil,
    /// An integer.
    Int(i64),
    /// A string of bytes, of any content.
    Data(Vec<u8>),
    /// A sequence of replies.
    Bulk(Vec<Reply>),
    /// A line of status text.
    Status(String),
    /// The status line that reads `OK`.
    Okay,
}

/// What a [`Reply`] holds, as a mathematical value.
pub enum Shape {
    Nil,
    Int(i64),
    Data(Seq<u8>),
    Bulk(Seq<Shape>),
    Status(Seq<char>),
    Okay,
}

impl View for Reply {
    type V = Shape;

    open spec fn view(&self) -> Shape
        decreases self,
    {
        match self {
            Reply::Nil => Shape::Nil,
            Reply::Int(n) => Shape::Int(*n),
            Reply::Data(bytes) => Shape::Data(bytes@),
            Reply::Bulk(items) => Shape::Bulk(shapes(items@)),
            Reply::Status(text) => Shape::Status(text@),
            Reply::Okay => Shape::Okay,
        }
    }
}

/// The views of a run of replies, in order.
pub open spec fn shapes(items: Seq<Reply>) -> Seq<Shape>
    decreases items,
{
    if items.len() == 0 {
        Seq::empty()
    } else {
        shapes(items.drop_last()).push(items.last()@)
    }
}

/// `shapes` keeps the length and views item by item.
pub proof fn lemma_shapes(items: Seq<Reply>)
    ensures
        shapes(items).len() == items.len(),
        forall|i: int| 0 <= i < items.len() ==> #[trigger] shapes(items)[i] == items[i]@,
    decreases items.len(),
{
    if items.len() > 0 {
        lemma_shapes(items.drop_last());
        assert(shapes(items) == shapes(items.drop_last()).push(items.last()@));
    }
}

} // verus!
