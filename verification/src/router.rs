//! The route and session logic of the shell: which tool the URL
//! fragment selects, which menu entry is active, and how a tool view's
//! state reacts to navigation and input. Navigating mounts exactly the
//! selected tool with fresh, empty state.

use vstd::prelude::*;
use vstd::string::StringExecFns;
use vstd::utf8::{encode_utf8, valid_utf8};

use crate::base64;
use crate::base_conv;
use crate::char_count;
use crate::char_count::CharCount;
use crate::digest;
use crate::regex_gen;
use crate::strutil::str_eq;
use crate::sudden_death;

verus! {

/// One tag per tool, and one for the index screen.
#[derive(Clone, Copy, PartialEq, Eq, Structural, Debug)]
pub enum Route {
    Index,
    Base64,
    Digest,
    BaseConverter,
    CharCounter,
    Regex,
    SuddenDeath,
}

/// The route a URL fragment selects; anything unknown shows the index.
pub open spec fn fragment_route(s: Seq<char>) -> Route {
    if s == "#/base64"@ {
        Route::Base64
    } else if s == "#/digest"@ {
        Route::Digest
    } else if s == "#/base-conv"@ {
        Route::BaseConverter
    } else if s == "#/wc"@ {
        Route::CharCounter
    } else if s == "#/regex"@ {
        Route::Regex
    } else if s == "#/sudden-death"@ {
        Route::SuddenDeath
    } else {
        Route::Index
    }
}

/// The URL fragment of a route; the index has the empty fragment.
pub open spec fn route_fragment(r: Route) -> Seq<char> {
    match r {
        Route::Index => ""@,
        Route::Base64 => "#/base64"@,
        Route::Digest => "#/digest"@,
        Route::BaseConverter => "#/base-conv"@,
        Route::CharCounter => "#/wc"@,
        Route::Regex => "#/regex"@,
        Route::SuddenDeath => "#/sudden-death"@,
    }
}

/// Maps a URL fragment to the route it selects.
pub fn route_of_fragment(fragment: &str) -> (r: Route)
    ensures
        r == fragment_route(fragment@),
{
    if str_eq(fragment, "#/base64") {
        Route::Base64
    } else if str_eq(fragment, "#/digest") {
        Route::Digest
    } else if str_eq(fragment, "#/base-conv") {
        Route::BaseConverter
    } else if str_eq(fragment, "#/wc") {
        Route::CharCounter
    } else if str_eq(fragment, "#/regex") {
        Route::Regex
    } else if str_eq(fragment, "#/sudden-death") {
        Route::SuddenDeath
    } else {
        Route::Index
    }
}

/// Every route's own fragment leads back to that route and to no other:
/// the fragments are pairwise distinct.
pub proof fn lemma_fragment_route_inverse(r: Route)
    ensures
        fragment_route(route_fragment(r)) == r,
{
    reveal_strlit("");
    reveal_strlit("#/base64");
    reveal_strlit("#/digest");
    reveal_strlit("#/base-conv");
    reveal_strlit("#/wc");
    reveal_strlit("#/regex");
    reveal_strlit("#/sudden-death");
    assert(""@.len() == 0);
    assert("#/base64"@.len() == 8);
    assert("#/digest"@.len() == 8);
    assert("#/base-conv"@.len() == 11);
    assert("#/wc"@.len() == 4);
    assert("#/regex"@.len() == 7);
    assert("#/sudden-death"@.len() == 14);
    assert("#/digest"@[2] == 'd');
    assert("#/base64"@[2] == 'b');
    assert("#/digest"@ != "#/base64"@);
}

/// The tool-specific parameters a session carries.
#[derive(Clone, Copy, PartialEq, Eq, Structural, Debug)]
pub struct ToolParams {
    /// Base64 variant used by the base64 tool.
    pub variant: base64::Variant,
    /// Whether the base64 tool decodes instead of encoding.
    pub decode: bool,
    /// Digest algorithm used by the digest tool.
    pub algorithm: digest::DigestAlgorithm,
    /// Source base of the base converter.
    pub from_base: u32,
    /// Target base of the base converter.
    pub to_base: u32,
    /// Seed of the novelty text generator.
    pub seed: u64,
}

/// The defaults a freshly mounted tool view starts from.
pub open spec fn default_params() -> ToolParams {
    ToolParams {
        variant: base64::Variant { alphabet: base64::Alphabet::Standard, padded: true },
        decode: false,
        algorithm: digest::DigestAlgorithm::Sha256,
        from_base: 10,
        to_base: 16,
        seed: 0,
    }
}

/// Parameters the tools accept: both bases within 2 to 36.
pub open spec fn params_wf(p: ToolParams) -> bool {
    2 <= p.from_base <= 36 && 2 <= p.to_base <= 36
}

/// What the active tool shows for the current input.
pub enum ToolOutput {
    /// The index screen: no tool, no output.
    Idle,
    /// A successful transform.
    Text(String),
    /// The counts of the character counter.
    Counts(CharCount),
    /// A failed transform, with its message.
    Failed(String),
}

/// What the active tool must show for an input: the output is a pure
/// function of route, input and parameters.
pub open spec fn output_ok(route: Route, input: Seq<char>, params: ToolParams, r: ToolOutput) -> bool {
    match route {
            Route::Index => r is Idle,
            Route::Base64 => {
                if params.decode {
                    match base64::decode_spec(input, params.variant) {
                        Some(b) => {
                            if valid_utf8(b) {
                                r matches ToolOutput::Text(s) && encode_utf8(s@) == b
                            } else {
                                r matches ToolOutput::Failed(m) && m@ == "invalid base64 input"@
                            }
                        },
                        None => (r matches ToolOutput::Failed(m) && m@
                            == "invalid base64 input"@),
                    }
                } else {
                    r matches ToolOutput::Text(s) && s@ == base64::encode_spec(
                        encode_utf8(input),
                        params.variant,
                    )
                }
            },
            Route::Digest => r matches ToolOutput::Text(s) && s@ == digest::digest_spec(
                input,
                params.algorithm,
            ),
            Route::BaseConverter => {
                match base_conv::convert_base_spec(
                    input,
                    params.from_base as int,
                    params.to_base as int,
                ) {
                    Some(t) => r matches ToolOutput::Text(s) && s@ == t,
                    None => (r matches ToolOutput::Failed(m) && m@
                        == "invalid digits for the chosen base"@),
                }
            },
            Route::CharCounter => (r matches ToolOutput::Counts(c) && c.characters == input.len()
                && c.words == char_count::word_count(input) && c.lines == char_count::line_count(
                input,
            ) && c.bytes == encode_utf8(input).len()),
            Route::Regex => r matches ToolOutput::Text(s) && s@ == regex_gen::regex_spec(
                seq![input],
            ),
            Route::SuddenDeath => r matches ToolOutput::Text(s) && s@
                == sudden_death::sudden_death_spec(params.seed),
        }
}

/// Runs the transform of the given tool on an input.
pub fn run_tool(route: Route, input: &str, params: &ToolParams) -> (r: ToolOutput)
    requires
        params_wf(*params),
    ensures
        output_ok(route, input@, *params, r),
{
    match route {
        Route::Index => ToolOutput::Idle,
        Route::Base64 => {
            if params.decode {
                match base64::base64_decode(input, params.variant) {
                    Ok(s) => ToolOutput::Text(s),
                    Err(e) => ToolOutput::Failed(e.message()),
                }
            } else {
                ToolOutput::Text(base64::base64_encode(input, params.variant))
            }
        },
        Route::Digest => ToolOutput::Text(digest::digest(input, params.algorithm)),
        Route::BaseConverter => {
            match base_conv::convert_base(input, params.from_base, params.to_base) {
                Ok(s) => ToolOutput::Text(s),
                Err(e) => ToolOutput::Failed(e.message()),
            }
        },
        Route::CharCounter => ToolOutput::Counts(char_count::count_chars(input)),
        Route::Regex => {
            let mut samples: Vec<String> = Vec::new();
            samples.push(String::from_str(input));
            proof {
                assert(samples.deep_view() =~= seq![input@]);
            }
            ToolOutput::Text(regex_gen::generate_regex(&samples))
        },
        Route::SuddenDeath => ToolOutput::Text(
            sudden_death::generate_sudden_death(params.seed),
        ),
    }
}

/// The ephemeral state of the shell: the mounted route and the input
/// and parameters of the mounted tool view.
pub struct Session {
    /// The route the router has mounted.
    pub route: Route,
    /// The mounted tool view's input text.
    pub input: String,
    /// The mounted tool view's parameters.
    pub params: ToolParams,
}

impl Session {
    /// Parameters stay within what the tools accept.
    pub open spec fn wf(&self) -> bool {
        params_wf(self.params)
    }

    /// A fresh session: the index screen, nothing typed.
    pub fn new() -> (s: Session)
        ensures
            s.route == Route::Index,
            s.input@ == Seq::<char>::empty(),
            s.params == default_params(),
            s.wf(),
    {
        Session { route: Route::Index, input: String::new(), params: ToolParams {
            variant: base64::Variant { alphabet: base64::Alphabet::Standard, padded: true },
            decode: false,
            algorithm: digest::DigestAlgorithm::Sha256,
            from_base: 10,
            to_base: 16,
            seed: 0,
        } }
    }

    /// Navigates to a fragment: mounts the tool that fragment selects
    /// and no other, with fresh empty state; the previous view's input
    /// and parameters are discarded.
    pub fn navigate(&mut self, fragment: &str)
        ensures
            final(self).route == fragment_route(fragment@),
            final(self).input@ == Seq::<char>::empty(),
            final(self).params == default_params(),
            final(self).wf(),
    {
        let fresh = Session::new();
        *self = fresh;
        self.route = route_of_fragment(fragment);
    }

    /// Replaces the mounted view's input; the route and the parameters
    /// stay.
    pub fn set_input(&mut self, text: &str)
        ensures
            final(self).route == old(self).route,
            final(self).input@ == text@,
            final(self).params == old(self).params,
    {
        self.input = String::from_str(text);
    }

    /// Replaces the mounted view's parameters; the route and the input
    /// stay.
    pub fn set_params(&mut self, params: ToolParams)
        requires
            params_wf(params),
        ensures
            final(self).route == old(self).route,
            final(self).input@ == old(self).input@,
            final(self).params == params,
            final(self).wf(),
    {
        self.params = params;
    }

    /// Recomputes the mounted tool's output from the current state.
    pub fn current_output(&self) -> (r: ToolOutput)
        requires
            self.wf(),
        ensures
            output_ok(self.route, self.input@, self.params, r),
    {
        run_tool(self.route, self.input.as_str(), &self.params)
    }
}

/// The menu's entries, in order: every tool route, the index excluded.
pub fn menu_routes() -> (r: Vec<Route>)
    ensures
        r@ == seq![
            Route::Base64,
            Route::Digest,
            Route::BaseConverter,
            Route::CharCounter,
            Route::Regex,
            Route::SuddenDeath,
        ],
{
    let mut v: Vec<Route> = Vec::new();
    v.push(Route::Base64);
    v.push(Route::Digest);
    v.push(Route::BaseConverter);
    v.push(Route::CharCounter);
    v.push(Route::Regex);
    v.push(Route::SuddenDeath);
    proof {
        assert(v@ =~= seq![
            Route::Base64,
            Route::Digest,
            Route::BaseConverter,
            Route::CharCounter,
            Route::Regex,
            Route::SuddenDeath,
        ]);
    }
    v
}

/// Whether a menu entry is shown as active: exactly when it is the
/// mounted route.
pub fn is_active(current: Route, entry: Route) -> (r: bool)
    ensures
        r == (current == entry),
{
    current == entry
}

} // verus!
