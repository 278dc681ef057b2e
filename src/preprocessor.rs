//! The book preprocessor's own decisions.
use vstd::prelude::*;

verus! {

/// The book preprocessor that runs the engine over each chapter.
pub struct PlayScriptPreprocessor {}

impl PlayScriptPreprocessor {
    pub fn new() -> (r: Self) {
        PlayScriptPreprocessor {}
    }

    /// Only the HTML renderer understands the fragments the engine emits.
    pub fn supports_renderer(&self, renderer: &str) -> (r: bool)
        ensures
            r == (renderer@ == "html"@),
    {
        proof {
            reveal_strlit("html");
        }
        let cs = crate::text::chars_of(renderer);
        if cs.len() != 4 {
            return false;
        }
        let r = cs[0] == 'h' && cs[1] == 't' && cs[2] == 'm' && cs[3] == 'l';
        proof {
            if renderer@ == "html"@ {
                assert(renderer@[0] == 'h' && renderer@[1] == 't' && renderer@[2] == 'm' && renderer@[3] == 'l');
            }
            if r {
                assert(renderer@ =~= "html"@);
            }
        }
        r
    }
}

} // verus!
