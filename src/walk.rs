use vstd::prelude::*;

verus! {

/// A source position of a token.
#[derive(Clone, Copy, Debug, PartialEq, Eq, Structural)]
pub struct Position {
    /// Offset in bytes from the start of the source.
    pub bytes: usize,
    /// Line number, starting at 1.
    pub line: usize,
    /// Column on the line, starting at 1.
    pub character: usize,
}

/// One node of the syntax walk that the scope analysis reads.
#[derive(Clone, Debug)]
pub enum Event {
    /// A block begins: the top-level chunk, a function body, a loop body,
    /// a branch of a conditional or a `do` block.
    BlockStart,
    /// The block that began last ends.
    BlockEnd,
    /// A name declared `local`, or the name of a `local function`.
    LocalName(String),
    /// The named parameters of a function; they belong to the block that
    /// starts next, which is the function's body.
    Parameters(Vec<String>),
    /// A plain name as the target of an assignment (`name = ...`).
    AssignName(String, Position),
    /// A name read as a value, or the callee of a function call.
    ReadName(String, Position),
}

/// The mathematical view of an [`Event`]: names as sequences of characters.
pub enum EventView {
    BlockStart,
    BlockEnd,
    LocalName(Seq<char>),
    Parameters(Seq<Seq<char>>),
    AssignName(Seq<char>, Position),
    ReadName(Seq<char>, Position),
}

pub open spec fn names_view(v: Seq<String>) -> Seq<Seq<char>> {
    v.map_values(|s: String| s@)
}

impl View for Event {
    type V = EventView;

    open spec fn view(&self) -> EventView {
        match self {
            Event::BlockStart => EventView::BlockStart,
            Event::BlockEnd => EventView::BlockEnd,
            Event::LocalName(n) => EventView::LocalName(n@),
            Event::Parameters(ns) => EventView::Parameters(names_view(ns@)),
            Event::AssignName(n, p) => EventView::AssignName(n@, *p),
            Event::ReadName(n, p) => EventView::ReadName(n@, *p),
        }
    }
}

/// A program as the syntax walk of its tree, in document order.
#[derive(Clone, Debug)]
pub struct AstWalk {
    pub events: Vec<Event>,
}

impl View for AstWalk {
    type V = Seq<EventView>;

    open spec fn view(&self) -> Seq<EventView> {
        self.events@.map_values(|e: Event| e@)
    }
}

} // verus!
