use vstd::prelude::*;

verus! {

/// What the user can choose after reviewing an overview.
pub enum PromptArg {
    Delete,
    Exit,
    Tree,
}

impl PromptArg {
    /// The label shown for each choice.
    pub open spec fn as_str_spec(&self) -> Seq<char> {
        match self {
            PromptArg::Delete => "Delete \u{1f5d1}\u{fe0f}"@,
            PromptArg::Exit => "Exit \u{1f6aa}"@,
            PromptArg::Tree => "Print directory tree \u{1f332}"@,
        }
    }

    pub fn as_str(&self) -> (r: &'static str)
        ensures
            r@ == self.as_str_spec(),
    {
        match self {
            PromptArg::Delete => "Delete \u{1f5d1}\u{fe0f}",
            PromptArg::Exit => "Exit \u{1f6aa}",
            PromptArg::Tree => "Print directory tree \u{1f332}",
        }
    }
}

} // verus!
