//! The parameterized system prompt embedded into every training record.

use vstd::prelude::*;
use vstd::string::StringExecFns;

use crate::textspec::spec_dec;

verus! {

/// The fixed opening of the system prompt: response format rules and the
/// format example.
pub open spec fn prompt_head() -> Seq<char> {
    "You are a helpful assistant that can interact multiple times with a computer shell to solve programming tasks.\nYour response must contain exactly ONE bash code block with ONE command (or commands connected with && or ||).\n\nFormat your response as shown in <format_example>.\n\n<format_example>\n```bash\nyour_command_here\n```\n</format_example>\n\nFile state appears in <stdout> echoes of `cat -n <file>` listings and `cat -n <file> | sed -n 'a,bp'` viewports of "@
}

/// The fixed closing of the system prompt: the permitted sed forms and the
/// rejection warning.
pub open spec fn prompt_tail() -> Seq<char> {
    " lines. Edits use the line-based sed forms `Ni\\`, `$a\\`, `S,Ed` and `S,Ec\\`.\n\nFailure to follow these rules will cause your response to be rejected."@
}

/// The number of lines a viewport shows: one line either side of the
/// center within the radius (saturated at the machine bound).
pub open spec fn spec_viewport_lines(viewport_radius: nat) -> nat {
    if 2 * viewport_radius + 1 <= usize::MAX {
        2 * viewport_radius + 1
    } else {
        usize::MAX as nat
    }
}

/// The system prompt for a given viewport radius: the response-format rules
/// around the viewport size in lines.
pub open spec fn spec_default_system_prompt(viewport_radius: nat) -> Seq<char> {
    prompt_head() + spec_dec(spec_viewport_lines(viewport_radius)) + prompt_tail()
}

/// Build the system prompt describing the transcript format, with viewports
/// of `2 * viewport_radius + 1` lines.
pub fn default_system_prompt(viewport_radius: usize) -> (r: String)
    ensures
        r@ == spec_default_system_prompt(viewport_radius as nat),
{
    let lines: usize = if viewport_radius <= (usize::MAX - 1) / 2 {
        2 * viewport_radius + 1
    } else {
        usize::MAX
    };
    let mut out = String::from_str(
        "You are a helpful assistant that can interact multiple times with a computer shell to solve programming tasks.\nYour response must contain exactly ONE bash code block with ONE command (or commands connected with && or ||).\n\nFormat your response as shown in <format_example>.\n\n<format_example>\n```bash\nyour_command_here\n```\n</format_example>\n\nFile state appears in <stdout> echoes of `cat -n <file>` listings and `cat -n <file> | sed -n 'a,bp'` viewports of ",
    );
    crate::helpers::append_dec(&mut out, lines);
    out.append(
        " lines. Edits use the line-based sed forms `Ni\\`, `$a\\`, `S,Ed` and `S,Ec\\`.\n\nFailure to follow these rules will cause your response to be rejected.",
    );
    out
}

} // verus!
