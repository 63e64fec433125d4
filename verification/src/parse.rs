//! The script that asks Emacs for the tree of a document.
use vstd::prelude::*;
use vstd::std_specs::iter::IteratorSpec;
use vstd::string::StringExecFns;
use crate::quoting::escape;

verus! {

broadcast use vstd::string::group_string_axioms;

/// What the script holds before the document.
pub open spec fn script_head() -> Seq<char> {
    "(progn\n     (erase-buffer)\n     (insert \""@
}

/// What the script holds after the document.
pub open spec fn script_tail() -> Seq<char> {
    "\")\n     (org-mode)\n     (message \"%s\" (pp-to-string (org-element-parse-buffer)))\n)"@
}

/// The script that has Emacs parse `contents` as an Org document: the
/// document stands in it as a string, escaped.
pub open spec fn parse_script(contents: Seq<char>) -> Seq<char> {
    script_head() + escape(contents) + script_tail()
}

/// Writes `file_contents` so that it can stand between quotes in Emacs Lisp:
/// with a backslash before every quote and every backslash.
pub fn escape_elisp_string(file_contents: &str) -> (r: String)
    ensures
        r@ == escape(file_contents@),
{
    let mut output = String::new();
    let mut chars = file_contents.chars();
    let ghost mut seen: int = 0;
    assert(file_contents@.skip(0) =~= file_contents@);
    assert(output@ + escape(file_contents@) =~= escape(file_contents@));
    loop
        invariant
            chars.obeys_prophetic_iter_laws(),
            0 <= seen <= file_contents@.len(),
            chars.remaining() == file_contents@.skip(seen),
            escape(file_contents@) == output@ + escape(file_contents@.skip(seen)),
        ensures
            escape(file_contents@) == output@,
        decreases file_contents@.len() - seen,
    {
        match chars.next() {
            None => {
                assert(output@ + Seq::<char>::empty() =~= output@);
                break ;
            },
            Some(c) => {
                let ghost rest = file_contents@.skip(seen);
                proof {
                    assert(rest.skip(1) =~= file_contents@.skip(seen + 1));
                    let after = escape(file_contents@.skip(seen + 1));
                    if c == '"' || c == '\\' {
                        assert(output@ + (seq!['\\', c] + after) =~= output@.push('\\').push(c)
                            + after);
                    } else {
                        assert(output@ + (seq![c] + after) =~= output@.push(c) + after);
                    }
                }
                if c == '"' || c == '\\' {
                    output.push('\\');
                    output.push(c);
                } else {
                    output.push(c);
                }
                proof {
                    seen = seen + 1;
                }
            },
        }
    }
    output
}

/// The script to hand to Emacs for the document `file_contents`.
pub fn elisp_parse_script(file_contents: &str) -> (r: String)
    ensures
        r@ == parse_script(file_contents@),
{
    let escaped_file_contents = escape_elisp_string(file_contents);
    let mut script = String::from_str("(progn\n     (erase-buffer)\n     (insert \"");
    script.append(escaped_file_contents.as_str());
    script.append(
        "\")\n     (org-mode)\n     (message \"%s\" (pp-to-string (org-element-parse-buffer)))\n)",
    );
    script
}

} // verus!
