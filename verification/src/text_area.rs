use vstd::prelude::*;

verus! {

/// A block of markup text shown by the widget layer, kept within the
/// screen edge unless told otherwise.
#[derive(Debug)]
pub struct TextArea {
    pub text: Option<String>,
    pub limit_to_screen_edge: bool,
}

impl TextArea {
    /// A text area with no text of its own, filled by theme arguments.
    pub fn empty() -> (t: TextArea)
        ensures
            t.text is None,
            t.limit_to_screen_edge,
    {
        TextArea { text: None, limit_to_screen_edge: true }
    }

    pub fn new(text: &str) -> (t: TextArea)
        ensures
            t.text matches Some(s) && s@ == text@,
            t.limit_to_screen_edge,
    {
        TextArea { text: Some(String::from_str(text)), limit_to_screen_edge: true }
    }
}

} // verus!
