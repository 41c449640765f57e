//! Who commits: the name and the e-mail address in the `[user]` section of a
//! configuration text.

use crate::error::XitError;
use crate::objects::update::opt_string_view;
use crate::scan::{find_char, find_from, lemma_find_from_bounds};
use crate::text::{
    chars_eq, chars_of, lines, push_char, split_lines, string_of, trim, trimmed, views,
};
use vstd::prelude::*;
use vstd::slice::slice_subrange;
use vstd::string::StringExecFns;

verus! {

/// The identity of a user.
#[derive(Debug)]
pub struct UserConfig {
    pub name: String,
    pub email: String,
}

impl Clone for UserConfig {
    fn clone(&self) -> (copy: Self)
        ensures
            copy@ == self@,
    {
        UserConfig { name: self.name.clone(), email: self.email.clone() }
    }
}

/// An identity as plain values.
pub struct UserConfigView {
    pub name: Seq<char>,
    pub email: Seq<char>,
}

impl View for UserConfig {
    type V = UserConfigView;

    open spec fn view(&self) -> UserConfigView {
        UserConfigView { name: self.name@, email: self.email@ }
    }
}

/// What is known after some lines of a configuration were read: whether the
/// last section header was `[user]`, and the name and the e-mail address set
/// so far.
pub struct ConfigScan {
    pub in_user: bool,
    pub name: Option<Seq<char>>,
    pub email: Option<Seq<char>>,
}

/// What one more line changes. White space around the line, around a key
/// and around a value does not count. `[user]` opens the section of the
/// user and any other line that begins with `[` closes it; inside it, a line
/// with `=` sets `name` or `email` where its key is one of them.
pub open spec fn scan_line(state: ConfigScan, raw: Seq<char>) -> ConfigScan {
    let line = trimmed(raw);
    let eq = find_from(line, 0, '=');
    let key = trimmed(line.take(eq));
    let value = trimmed(line.skip(eq + 1));
    if line.len() == 0 {
        state
    } else if line == "[user]"@ {
        ConfigScan { in_user: true, ..state }
    } else if line[0] == '[' {
        ConfigScan { in_user: false, ..state }
    } else if !state.in_user || eq >= line.len() {
        state
    } else if key == "name"@ {
        ConfigScan { name: Some(value), ..state }
    } else if key == "email"@ {
        ConfigScan { email: Some(value), ..state }
    } else {
        state
    }
}

/// What is known after all the given lines were read.
pub open spec fn scan_lines(all: Seq<Seq<char>>) -> ConfigScan
    decreases all.len(),
{
    if all.len() == 0 {
        ConfigScan { in_user: false, name: None, email: None }
    } else {
        scan_line(scan_lines(all.drop_last()), all.last())
    }
}

/// The identity that a configuration text gives: the last name and the last
/// e-mail address set in a section of the user, where both are set.
pub open spec fn parsed_user(text: Seq<char>) -> Option<UserConfigView> {
    let scan = scan_lines(lines(text));
    if scan.name is Some && scan.email is Some {
        Some(UserConfigView { name: scan.name->0, email: scan.email->0 })
    } else {
        None
    }
}

/// The view of an optional identity.
pub open spec fn opt_user_view(user: Option<UserConfig>) -> Option<UserConfigView> {
    match user {
        Some(u) => Some(u@),
        None => None,
    }
}

/// The view of an optional text.
pub open spec fn opt_text(text: Option<&str>) -> Option<Seq<char>> {
    match text {
        Some(t) => Some(t@),
        None => None,
    }
}

/// The identity that a configuration text gives, where it gives one.
pub fn read_user_config(text: &str) -> (user: Option<UserConfig>)
    ensures
        opt_user_view(user) == parsed_user(text@),
{
    let chars = chars_of(text);
    let all = split_lines(chars.as_slice());
    let section = chars_of("[user]");
    let name_key = chars_of("name");
    let email_key = chars_of("email");
    let mut in_user = false;
    let mut name: Option<String> = None;
    let mut email: Option<String> = None;
    let mut i: usize = 0;
    proof {
        assert(views(all@).take(0) =~= Seq::<Seq<char>>::empty());
    }
    while i < all.len()
        invariant
            i <= all.len(),
            section@ == "[user]"@,
            name_key@ == "name"@,
            email_key@ == "email"@,
            scan_lines(views(all@).take(i as int)) == (ConfigScan {
                in_user,
                name: opt_string_view(name),
                email: opt_string_view(email),
            }),
        decreases all.len() - i,
    {
        proof {
            assert(views(all@).take(i + 1).drop_last() =~= views(all@).take(i as int));
            assert(views(all@).take(i + 1).last() == all@[i as int]@);
        }
        let line = trim(all[i].as_slice());
        if line.len() == 0 {
        } else if chars_eq(line, section.as_slice()) {
            in_user = true;
        } else if line[0] == '[' {
            in_user = false;
        } else if in_user {
            let eq: usize = find_char(line, 0, '=');
            if eq < line.len() {
                let key = trim(slice_subrange(line, 0, eq));
                let value = trim(slice_subrange(line, eq + 1, line.len()));
                proof {
                    assert(line@.subrange(0, eq as int) =~= line@.take(eq as int));
                    assert(line@.subrange(eq + 1, line@.len() as int) =~= line@.skip(eq + 1));
                }
                if chars_eq(key, name_key.as_slice()) {
                    name = Some(string_of(value));
                } else if chars_eq(key, email_key.as_slice()) {
                    email = Some(string_of(value));
                }
            }
        }
        i += 1;
    }
    proof {
        assert(views(all@).take(i as int) =~= views(all@));
    }
    match (name, email) {
        (Some(n), Some(e)) => Some(UserConfig { name: n, email: e }),
        _ => None,
    }
}

/// The identity to commit with: the one that the repository's own
/// configuration gives, and where it gives none, the one of the user's
/// global configuration.
pub open spec fn user_of(local: Option<Seq<char>>, global: Option<Seq<char>>) -> Option<
    UserConfigView,
> {
    if local is Some && parsed_user(local->0) is Some {
        parsed_user(local->0)
    } else if global is Some {
        parsed_user(global->0)
    } else {
        None
    }
}

/// The identity to commit with, from the text of the repository's own
/// configuration and that of the user's global one, either of which may be
/// missing. The repository's own comes first.
///
/// Fails with `NotFound` where neither gives both a name and an e-mail
/// address.
pub fn get_user_config(local: Option<&str>, global: Option<&str>) -> (r: Result<
    UserConfig,
    XitError,
>)
    ensures
        match r {
            Ok(user) => user_of(opt_text(local), opt_text(global)) == Some(user@),
            Err(e) => e == XitError::NotFound && user_of(opt_text(local), opt_text(global)) is None,
        },
{
    if let Some(text) = local {
        if let Some(user) = read_user_config(text) {
            return Ok(user);
        }
    }
    if let Some(text) = global {
        if let Some(user) = read_user_config(text) {
            return Ok(user);
        }
    }
    Err(XitError::NotFound)
}

/// A name and an e-mail address that can be saved: neither is empty between
/// white space, and the address holds an `@`.
pub open spec fn identity_ok(name: Seq<char>, email: Seq<char>) -> bool {
    trimmed(name).len() > 0 && trimmed(email).len() > 0 && email.contains('@')
}

/// The configuration text that holds the identity.
pub open spec fn user_section(name: Seq<char>, email: Seq<char>) -> Seq<char> {
    "[user]\n    name = "@ + trimmed(name) + "\n    email = "@ + trimmed(email) + seq!['\n']
}

/// The text of a global configuration that holds the given identity, without
/// the white space around the name and the address.
///
/// Fails with `InputValidation` where the name or the address is empty
/// between white space, or the address holds no `@`.
pub fn setup_global_user(name: &str, email: &str) -> (r: Result<String, XitError>)
    ensures
        match r {
            Ok(text) => identity_ok(name@, email@) && text@ == user_section(name@, email@),
            Err(e) => e == XitError::InputValidation && !identity_ok(name@, email@),
        },
{
    let name_chars = chars_of(name);
    let email_chars = chars_of(email);
    let name_kept = trim(name_chars.as_slice());
    let email_kept = trim(email_chars.as_slice());
    if name_kept.len() == 0 || email_kept.len() == 0 {
        return Err(XitError::InputValidation);
    }
    let at: usize = find_char(email_chars.as_slice(), 0, '@');
    proof {
        lemma_find_from_bounds(email@, 0, '@');
    }
    if at >= email_chars.len() {
        return Err(XitError::InputValidation);
    }
    let mut text = "[user]\n    name = ".to_owned();
    text.append(string_of(name_kept).as_str());
    text.append("\n    email = ");
    text.append(string_of(email_kept).as_str());
    push_char(&mut text, '\n');
    Ok(text)
}

/// The line that names who made a commit: the name, then the e-mail address
/// between angle brackets.
pub open spec fn signature(user: UserConfigView) -> Seq<char> {
    user.name + seq![' ', '<'] + user.email + seq!['>']
}

/// The line that names `user` as the maker of a commit.
pub fn signature_of(user: &UserConfig) -> (line: String)
    ensures
        line@ == signature(user@),
        line@.len() > 0,
{
    let mut line = user.name.clone();
    push_char(&mut line, ' ');
    push_char(&mut line, '<');
    line.append(user.email.as_str());
    push_char(&mut line, '>');
    proof {
        assert(line@ =~= signature(user@));
    }
    line
}

} // verus!
