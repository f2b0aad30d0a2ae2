//! The output accumulator: collects commands, information, warnings and
//! errors during one invocation and renders them into the single shell
//! line that the calling wrapper script evaluates. Printing the line is
//! the surrounding tool's concern.

use vstd::prelude::*;

use crate::format::apply_format;
use crate::settings::Config;
use crate::text::{join_strings, join_with};

verus! {

/// Collected output of one invocation, grouped by kind.
pub struct Output {
    /// Shell commands to run, not wrapped in `echo`.
    pub command: Vec<String>,
    /// Plain information lines, printed with `echo`.
    pub info: Vec<String>,
    /// Warnings, styled with the configured warning style.
    pub warning: Vec<String>,
    /// Errors, styled with the configured error style.
    pub error: Vec<String>,
}

/// The views of a list of messages.
pub open spec fn msg_views(s: Seq<String>) -> Seq<Seq<char>> {
    s.map_values(|m: String| m@)
}

/// A message wrapped for the shell: `echo '<message>'`.
pub open spec fn echo_wrap(s: Seq<char>) -> Seq<char> {
    "echo '"@ + s + "'"@
}

/// A message styled and wrapped: the style sequence, the message, the
/// reset sequence, inside an `echo`.
pub open spec fn styled_echo(s: Seq<char>, style: Seq<char>) -> Seq<char> {
    echo_wrap(style + s + "\x1b[0m"@)
}

/// The sections of the rendered line, each already joined with ` && `:
/// information, warnings, errors, then commands; empty groups are left
/// out entirely.
pub open spec fn output_sections(
    commands: Seq<Seq<char>>,
    infos: Seq<Seq<char>>,
    warnings: Seq<Seq<char>>,
    errors: Seq<Seq<char>>,
    warning_style: Seq<char>,
    error_style: Seq<char>,
) -> Seq<Seq<char>> {
    (if infos.len() > 0 {
        seq![join_with(infos.map_values(|m: Seq<char>| echo_wrap(m)), " && "@)]
    } else {
        Seq::<Seq<char>>::empty()
    }) + (if warnings.len() > 0 {
        seq![
            join_with(
                warnings.map_values(|m: Seq<char>| styled_echo(m, warning_style)),
                " && "@,
            ),
        ]
    } else {
        Seq::<Seq<char>>::empty()
    }) + (if errors.len() > 0 {
        seq![join_with(errors.map_values(|m: Seq<char>| styled_echo(m, error_style)), " && "@)]
    } else {
        Seq::<Seq<char>>::empty()
    }) + (if commands.len() > 0 {
        seq![join_with(commands, " && "@)]
    } else {
        Seq::<Seq<char>>::empty()
    })
}

impl Output {
    /// Creates an empty accumulator.
    pub fn new() -> (r: Output)
        ensures
            r.command@.len() == 0,
            r.info@.len() == 0,
            r.warning@.len() == 0,
            r.error@.len() == 0,
    {
        Output { command: Vec::new(), info: Vec::new(), warning: Vec::new(), error: Vec::new() }
    }

    /// Pushes a command to the output pipeline.
    pub fn push_command(&mut self, command: &String)
        ensures
            final(self).command@ == old(self).command@.push(*command),
            final(self).info@ == old(self).info@,
            final(self).warning@ == old(self).warning@,
            final(self).error@ == old(self).error@,
    {
        self.command.push(command.clone());
    }

    /// Pushes an information line to the output pipeline.
    pub fn push_info(&mut self, info: &String)
        ensures
            final(self).info@ == old(self).info@.push(*info),
            final(self).command@ == old(self).command@,
            final(self).warning@ == old(self).warning@,
            final(self).error@ == old(self).error@,
    {
        self.info.push(info.clone());
    }

    /// Pushes a warning to the output pipeline.
    pub fn push_warning(&mut self, warning: &String)
        ensures
            final(self).warning@ == old(self).warning@.push(*warning),
            final(self).command@ == old(self).command@,
            final(self).info@ == old(self).info@,
            final(self).error@ == old(self).error@,
    {
        self.warning.push(warning.clone());
    }

    /// Pushes an error to the output pipeline.
    pub fn push_error(&mut self, error: &String)
        ensures
            final(self).error@ == old(self).error@.push(*error),
            final(self).command@ == old(self).command@,
            final(self).info@ == old(self).info@,
            final(self).warning@ == old(self).warning@,
    {
        self.error.push(error.clone());
    }

    /// Renders the collected output as one shell line: information,
    /// styled warnings, styled errors and commands, joined with ` && `.
    /// When errors are present, `false` is appended to the commands so
    /// that the evaluated line fails.
    pub fn render(&mut self, config: &Config) -> (r: String)
        ensures
            final(self).info@ == old(self).info@,
            final(self).warning@ == old(self).warning@,
            final(self).error@ == old(self).error@,
            old(self).error@.len() > 0 ==> final(self).command@ == old(self).command@.push(
                final(self).command@.last(),
            ) && final(self).command@.last()@ == "false"@,
            old(self).error@.len() == 0 ==> final(self).command@ == old(self).command@,
            r@ == join_with(
                output_sections(
                    msg_views(final(self).command@),
                    msg_views(old(self).info@),
                    msg_views(old(self).warning@),
                    msg_views(old(self).error@),
                    config.styles.warning_style@,
                    config.styles.error_style@,
                ),
                " && "@,
            ),
    {
        if self.error.len() > 0 {
            let f = String::from_str("false");
            self.push_command(&f);
        }
        let mut sections: Vec<String> = Vec::new();

        if self.info.len() > 0 {
            let mut wrapped: Vec<String> = Vec::new();
            let mut i: usize = 0;
            proof {
                assert(msg_views(wrapped@) =~= Seq::<Seq<char>>::empty());
            }
            while i < self.info.len()
                invariant
                    self.info@ == old(self).info@,
                    0 <= i <= self.info@.len(),
                    msg_views(wrapped@) == msg_views(self.info@).take(i as int).map_values(
                        |m: Seq<char>| echo_wrap(m),
                    ),
                decreases self.info@.len() - i,
            {
                let mut line = String::from_str("echo '");
                line.append(self.info[i].as_str());
                line.append("'");
                let ghost old_w = msg_views(wrapped@);
                wrapped.push(line);
                proof {
                    let views = msg_views(self.info@);
                    assert(views.take(i + 1) =~= views.take(i as int).push(views[i as int]));
                    assert(views.take(i + 1).map_values(|m: Seq<char>| echo_wrap(m))
                        =~= views.take(i as int).map_values(|m: Seq<char>| echo_wrap(m)).push(
                        echo_wrap(views[i as int]),
                    ));
                    assert(msg_views(wrapped@) =~= old_w.push(echo_wrap(views[i as int])));
                }
                i = i + 1;
            }
            proof {
                let views = msg_views(self.info@);
                assert(views.take(views.len() as int) =~= views);
            }
            sections.push(join_strings(&wrapped, " && "));
        }

        if self.warning.len() > 0 {
            let styled = style_wrap_all(&self.warning, &config.styles.warning_style);
            sections.push(join_strings(&styled, " && "));
        }

        if self.error.len() > 0 {
            let styled = style_wrap_all(&self.error, &config.styles.error_style);
            sections.push(join_strings(&styled, " && "));
        }

        if self.command.len() > 0 {
            sections.push(join_strings(&self.command, " && "));
        }

        proof {
            assert(msg_views(sections@) =~= output_sections(
                msg_views(self.command@),
                msg_views(old(self).info@),
                msg_views(old(self).warning@),
                msg_views(old(self).error@),
                config.styles.warning_style@,
                config.styles.error_style@,
            ));
        }
        join_strings(&sections, " && ")
    }
}

/// Styles each message and wraps it in an `echo`.
fn style_wrap_all(msgs: &Vec<String>, style: &String) -> (r: Vec<String>)
    ensures
        msg_views(r@) == msg_views(msgs@).map_values(|m: Seq<char>| styled_echo(m, style@)),
{
    let mut r: Vec<String> = Vec::new();
    let mut i: usize = 0;
    proof {
        assert(msg_views(r@) =~= Seq::<Seq<char>>::empty());
    }
    while i < msgs.len()
        invariant
            0 <= i <= msgs@.len(),
            msg_views(r@) == msg_views(msgs@).take(i as int).map_values(
                |m: Seq<char>| styled_echo(m, style@),
            ),
        decreases msgs@.len() - i,
    {
        let formatted = apply_format(msgs[i].as_str(), style.as_str());
        let mut line = String::from_str("echo '");
        line.append(formatted.as_str());
        line.append("'");
        let ghost old_r = msg_views(r@);
        r.push(line);
        proof {
            let views = msg_views(msgs@);
            assert(views.take(i + 1) =~= views.take(i as int).push(views[i as int]));
            assert(views.take(i + 1).map_values(|m: Seq<char>| styled_echo(m, style@))
                =~= views.take(i as int).map_values(|m: Seq<char>| styled_echo(m, style@)).push(
                styled_echo(views[i as int], style@),
            ));
            assert(msg_views(r@) =~= old_r.push(styled_echo(views[i as int], style@)));
        }
        i = i + 1;
    }
    proof {
        let views = msg_views(msgs@);
        assert(views.take(views.len() as int) =~= views);
    }
    r
}

} // verus!
