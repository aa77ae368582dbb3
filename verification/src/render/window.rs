use vstd::prelude::*;

verus! {

/// Configuration for window creation.
#[derive(Debug, Clone, PartialEq, Eq)]
pub struct WindowConfig {
    pub title: String,
    pub width: u32,
    pub height: u32,
    pub resizable: bool,
}

impl Default for WindowConfig {
    fn default() -> (r: Self)
        ensures
            r.title@ == seq!['b', 'r', 's'],
            r.width == 1280,
            r.height == 720,
            !r.resizable,
    {
        proof {
            reveal_strlit("brs");
        }
        WindowConfig { title: String::from_str("brs"), width: 1280, height: 720, resizable: false }
    }
}

} // verus!
