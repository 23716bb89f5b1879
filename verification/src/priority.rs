//! The three priority labels and the rules that map input onto them.

use vstd::prelude::*;
use vstd::string::*;
use vstd::utf8::*;

verus! {

/// How urgent a note is. High comes before Medium, Medium before Low.
#[derive(Debug, Clone, Copy, PartialEq, Eq, Structural)]
pub enum Priority {
    High,
    Medium,
    Low,
}

impl Priority {
    /// The priority that a selector names on creation: 1 is High, 3 is Low,
    /// and everything else, a missing selector too, is Medium.
    pub open spec fn of_choice(choice: Option<i32>) -> Priority {
        match choice {
            Some(1) => Priority::High,
            Some(3) => Priority::Low,
            _ => Priority::Medium,
        }
    }

    /// The priority that a selector names on a change: 1, 2 and 3 name High,
    /// Medium and Low; everything else asks for no change.
    pub open spec fn of_change(choice: Option<i32>) -> Option<Priority> {
        match choice {
            Some(1) => Some(Priority::High),
            Some(2) => Some(Priority::Medium),
            Some(3) => Some(Priority::Low),
            _ => None,
        }
    }

    /// The label under which the priority is stored and shown.
    pub open spec fn label_text(self) -> Seq<char> {
        match self {
            Priority::High => "High"@,
            Priority::Medium => "Medium"@,
            Priority::Low => "Low"@,
        }
    }

    /// The priority that a label names; a text that is no label is Medium.
    pub open spec fn of_label(label: Seq<char>) -> Priority {
        if label == "High"@ {
            Priority::High
        } else if label == "Low"@ {
            Priority::Low
        } else {
            Priority::Medium
        }
    }

    /// The place in the precedence order: 1 for High, 2 for Medium, 3 for Low.
    pub open spec fn rank_of(self) -> int {
        match self {
            Priority::High => 1,
            Priority::Medium => 2,
            Priority::Low => 3,
        }
    }

    /// A selector other than 1, 2 and 3 creates a Medium note, and so does a
    /// missing one.
    pub proof fn lemma_unknown_choice_is_medium(choice: Option<i32>)
        requires
            choice != Some(1i32),
            choice != Some(2i32),
            choice != Some(3i32),
        ensures
            Priority::of_choice(choice) == Priority::Medium,
            Priority::of_change(choice).is_none(),
    {
    }

    /// Every label names its own priority.
    pub proof fn lemma_label_round_trip(p: Priority)
        ensures
            Priority::of_label(p.label_text()) == p,
    {
        reveal_strlit("High");
        reveal_strlit("Medium");
        reveal_strlit("Low");
        assert("High"@.len() == 4);
        assert("Medium"@.len() == 6);
        assert("Low"@.len() == 3);
    }

    /// A label is plain ASCII of at most six bytes.
    pub proof fn lemma_label_is_short(p: Priority)
        ensures
            encode_utf8(p.label_text()).len() <= 6,
    {
        reveal_strlit("High");
        reveal_strlit("Medium");
        reveal_strlit("Low");
        let label = p.label_text();
        assert(label.len() <= 6);
        assert(is_ascii_chars(label));
        is_ascii_chars_encode_utf8(label);
    }

    /// Resolves the selector given on creation.
    pub fn from_choice(choice: Option<i32>) -> (p: Priority)
        ensures
            p == Priority::of_choice(choice),
    {
        match choice {
            Some(1) => Priority::High,
            Some(3) => Priority::Low,
            _ => Priority::Medium,
        }
    }

    /// Resolves the selector given on a change.
    pub fn from_change(choice: Option<i32>) -> (p: Option<Priority>)
        ensures
            p == Priority::of_change(choice),
    {
        match choice {
            Some(1) => Some(Priority::High),
            Some(2) => Some(Priority::Medium),
            Some(3) => Some(Priority::Low),
            _ => None,
        }
    }

    /// The label under which the priority is stored and shown.
    pub fn label(&self) -> (text: &'static str)
        ensures
            text@ == self.label_text(),
    {
        match self {
            Priority::High => "High",
            Priority::Medium => "Medium",
            Priority::Low => "Low",
        }
    }

    /// Reads a label; a text that is no label is Medium.
    pub fn from_label(label: &str) -> (p: Priority)
        ensures
            p == Priority::of_label(label@),
    {
        let owned = label.to_owned();
        if owned == "High".to_owned() {
            Priority::High
        } else if owned == "Low".to_owned() {
            Priority::Low
        } else {
            Priority::Medium
        }
    }

    /// The place in the precedence order: 1 for High, 2 for Medium, 3 for Low.
    pub fn rank(&self) -> (r: u8)
        ensures
            r == self.rank_of(),
    {
        match self {
            Priority::High => 1,
            Priority::Medium => 2,
            Priority::Low => 3,
        }
    }
}

} // verus!
