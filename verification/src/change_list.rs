//! The append-only instruction log that a diff pass produces. An external
//! executor applies it to a live DOM; this crate only builds it.

use vstd::prelude::*;

verus! {

/// One change-list instruction, as contracts speak of it: strings appear as
/// their character sequences.
pub enum Op {
    SetText { text: Seq<char> },
    CreateTextNode { text: Seq<char> },
    CreateElement { tag_name: Seq<char> },
    CreateElementNs { tag_name: Seq<char>, namespace: Seq<char> },
    SetAttribute { name: Seq<char>, value: Seq<char> },
    RemoveAttribute { name: Seq<char> },
    NewEventListener { event: Seq<char>, callback: u64 },
    UpdateEventListener { event: Seq<char>, callback: u64 },
    RemoveEventListener { event: Seq<char> },
    AppendChild,
    ReplaceWith,
    PushFirstChild,
    PopPushNextSibling,
    Pop,
    RemoveSelfAndNextSiblings,
}

/// One change-list instruction as it is stored and handed to the executor.
#[derive(Clone, Debug, PartialEq, Eq)]
pub enum Instruction {
    SetText { text: String },
    CreateTextNode { text: String },
    CreateElement { tag_name: String },
    CreateElementNs { tag_name: String, namespace: String },
    SetAttribute { name: String, value: String },
    RemoveAttribute { name: String },
    NewEventListener { event: String, callback: u64 },
    UpdateEventListener { event: String, callback: u64 },
    RemoveEventListener { event: String },
    AppendChild,
    ReplaceWith,
    PushFirstChild,
    PopPushNextSibling,
    Pop,
    RemoveSelfAndNextSiblings,
}

impl View for Instruction {
    type V = Op;

    open spec fn view(&self) -> Op {
        match self {
            Instruction::SetText { text } => Op::SetText { text: text@ },
            Instruction::CreateTextNode { text } => Op::CreateTextNode { text: text@ },
            Instruction::CreateElement { tag_name } => Op::CreateElement { tag_name: tag_name@ },
            Instruction::CreateElementNs { tag_name, namespace } => Op::CreateElementNs {
                tag_name: tag_name@,
                namespace: namespace@,
            },
            Instruction::SetAttribute { name, value } => Op::SetAttribute {
                name: name@,
                value: value@,
            },
            Instruction::RemoveAttribute { name } => Op::RemoveAttribute { name: name@ },
            Instruction::NewEventListener { event, callback } => Op::NewEventListener {
                event: event@,
                callback: *callback,
            },
            Instruction::UpdateEventListener { event, callback } => Op::UpdateEventListener {
                event: event@,
                callback: *callback,
            },
            Instruction::RemoveEventListener { event } => Op::RemoveEventListener { event: event@ },
            Instruction::AppendChild => Op::AppendChild,
            Instruction::ReplaceWith => Op::ReplaceWith,
            Instruction::PushFirstChild => Op::PushFirstChild,
            Instruction::PopPushNextSibling => Op::PopPushNextSibling,
            Instruction::Pop => Op::Pop,
            Instruction::RemoveSelfAndNextSiblings => Op::RemoveSelfAndNextSiblings,
        }
    }
}

/// The views of a sequence of stored instructions.
pub open spec fn instruction_views(s: Seq<Instruction>) -> Seq<Op> {
    s.map_values(|ins: Instruction| ins@)
}

proof fn lemma_instruction_views_push(s: Seq<Instruction>, x: Instruction)
    ensures
        instruction_views(s.push(x)) == instruction_views(s).push(x@),
{
    assert(instruction_views(s.push(x)) =~= instruction_views(s).push(x@));
}

/// The instruction log. Its view is the sequence of instructions emitted so
/// far; every method appends exactly one instruction.
pub struct ChangeListBuilder {
    instructions: Vec<Instruction>,
}

impl View for ChangeListBuilder {
    type V = Seq<Op>;

    closed spec fn view(&self) -> Seq<Op> {
        instruction_views(self.instructions@)
    }
}

impl ChangeListBuilder {
    pub fn new() -> (r: Self)
        ensures
            r@ == Seq::<Op>::empty(),
    {
        let r = ChangeListBuilder { instructions: Vec::new() };
        proof {
            assert(r@ =~= Seq::<Op>::empty());
        }
        r
    }

    /// The instructions emitted so far, for the executor to apply in order.
    pub fn instructions(&self) -> (r: &Vec<Instruction>)
        ensures
            instruction_views(r@) == self@,
    {
        &self.instructions
    }

    fn emit(&mut self, instruction: Instruction)
        ensures
            final(self)@ == old(self)@.push(instruction@),
    {
        proof {
            lemma_instruction_views_push(self.instructions@, instruction);
        }
        self.instructions.push(instruction);
    }

    pub fn set_text(&mut self, text: &String)
        ensures
            final(self)@ == old(self)@.push(Op::SetText { text: text@ }),
    {
        self.emit(Instruction::SetText { text: text.clone() });
    }

    pub fn create_text_node(&mut self, text: &String)
        ensures
            final(self)@ == old(self)@.push(Op::CreateTextNode { text: text@ }),
    {
        self.emit(Instruction::CreateTextNode { text: text.clone() });
    }

    pub fn create_element(&mut self, tag_name: &String)
        ensures
            final(self)@ == old(self)@.push(Op::CreateElement { tag_name: tag_name@ }),
    {
        self.emit(Instruction::CreateElement { tag_name: tag_name.clone() });
    }

    pub fn create_element_ns(&mut self, tag_name: &String, namespace: &String)
        ensures
            final(self)@ == old(self)@.push(
                Op::CreateElementNs { tag_name: tag_name@, namespace: namespace@ },
            ),
    {
        self.emit(
            Instruction::CreateElementNs {
                tag_name: tag_name.clone(),
                namespace: namespace.clone(),
            },
        );
    }

    pub fn set_attribute(&mut self, name: &String, value: &String)
        ensures
            final(self)@ == old(self)@.push(Op::SetAttribute { name: name@, value: value@ }),
    {
        self.emit(Instruction::SetAttribute { name: name.clone(), value: value.clone() });
    }

    pub fn remove_attribute(&mut self, name: &String)
        ensures
            final(self)@ == old(self)@.push(Op::RemoveAttribute { name: name@ }),
    {
        self.emit(Instruction::RemoveAttribute { name: name.clone() });
    }

    pub fn new_event_listener(&mut self, event: &String, callback: u64)
        ensures
            final(self)@ == old(self)@.push(Op::NewEventListener { event: event@, callback }),
    {
        self.emit(Instruction::NewEventListener { event: event.clone(), callback });
    }

    pub fn update_event_listener(&mut self, event: &String, callback: u64)
        ensures
            final(self)@ == old(self)@.push(Op::UpdateEventListener { event: event@, callback }),
    {
        self.emit(Instruction::UpdateEventListener { event: event.clone(), callback });
    }

    pub fn remove_event_listener(&mut self, event: &String)
        ensures
            final(self)@ == old(self)@.push(Op::RemoveEventListener { event: event@ }),
    {
        self.emit(Instruction::RemoveEventListener { event: event.clone() });
    }

    pub fn append_child(&mut self)
        ensures
            final(self)@ == old(self)@.push(Op::AppendChild),
    {
        self.emit(Instruction::AppendChild);
    }

    pub fn replace_with(&mut self)
        ensures
            final(self)@ == old(self)@.push(Op::ReplaceWith),
    {
        self.emit(Instruction::ReplaceWith);
    }

    pub fn push_first_child(&mut self)
        ensures
            final(self)@ == old(self)@.push(Op::PushFirstChild),
    {
        self.emit(Instruction::PushFirstChild);
    }

    pub fn pop_push_next_sibling(&mut self)
        ensures
            final(self)@ == old(self)@.push(Op::PopPushNextSibling),
    {
        self.emit(Instruction::PopPushNextSibling);
    }

    pub fn pop(&mut self)
        ensures
            final(self)@ == old(self)@.push(Op::Pop),
    {
        self.emit(Instruction::Pop);
    }

    pub fn remove_self_and_next_siblings(&mut self)
        ensures
            final(self)@ == old(self)@.push(Op::RemoveSelfAndNextSiblings),
    {
        self.emit(Instruction::RemoveSelfAndNextSiblings);
    }
}

} // verus!
