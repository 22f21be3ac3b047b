use vstd::prelude::*;
use vstd::string::StringExecFns;

use crate::codec::{
    chars_to_string, eq_at, escape, parse_string_at, parse_string_body, push_escaped, push_chars,
    starts_with, str_to_chars, lemma_escape_round,
};
use crate::error::MoodError;

verus! {

/// The persisted configuration: where the journal file lives, as a path in
/// text form.
#[derive(Debug)]
pub struct MoodConfig {
    pub journal_path: String,
}

pub open spec fn config_open() -> Seq<char> {
    seq!['(', 'j', 'o', 'u', 'r', 'n', 'a', 'l', '_', 'p', 'a', 't', 'h', ':', '"']
}

/// The whole serialized configuration.
pub open spec fn ser_config(path: Seq<char>) -> Seq<char> {
    config_open() + escape(path) + seq!['"'] + seq![')']
}

/// The journal path read back from a serialized configuration, which
/// nothing may follow.
pub open spec fn parse_config(s: Seq<char>) -> Option<Seq<char>> {
    if starts_with(s, config_open()) {
        match parse_string_body(s.skip(15)) {
            None => None,
            Some(p) => {
                if p.1 == seq![')'] {
                    Some(p.0)
                } else {
                    None
                }
            },
        }
    } else {
        None
    }
}

/// Law: a serialized configuration parses back to the same journal path.
pub proof fn lemma_config_round_trip(path: Seq<char>)
    ensures
        parse_config(ser_config(path)) == Some(path),
{
    let tail = (escape(path) + seq!['"']) + seq![')'];
    let s = ser_config(path);
    assert(s =~= config_open() + tail);
    crate::codec::lemma_prefix_skip(config_open(), tail);
    lemma_escape_round(path, seq![')']);
}

fn config_open_vec() -> (v: Vec<char>)
    ensures
        v@ == config_open(),
{
    let mut v: Vec<char> = Vec::new();
    v.push('(');
    v.push('j');
    v.push('o');
    v.push('u');
    v.push('r');
    v.push('n');
    v.push('a');
    v.push('l');
    v.push('_');
    v.push('p');
    v.push('a');
    v.push('t');
    v.push('h');
    v.push(':');
    v.push('"');
    proof {
        assert(v@ =~= config_open());
    }
    v
}

/// The characters with all trailing newlines removed.
pub open spec fn strip_trailing_newlines(s: Seq<char>) -> Seq<char>
    decreases s.len(),
{
    if s.len() > 0 && s[s.len() - 1] == '\n' {
        strip_trailing_newlines(s.take(s.len() - 1))
    } else {
        s
    }
}

/// A usable path in text form: not empty, and free of NUL characters.
pub open spec fn valid_path(s: Seq<char>) -> bool {
    s.len() > 0 && forall|i: int| 0 <= i < s.len() ==> s[i] != '\0'
}

impl MoodConfig {
    /// The default configuration for a given configuration directory: the
    /// journal file sits inside that directory under its default name.
    pub fn default_in(config_dir: &str) -> (c: MoodConfig)
        ensures
            c.journal_path@ == config_dir@ + "/journal.ron"@,
    {
        MoodConfig { journal_path: config_dir.to_owned().concat("/journal.ron") }
    }

    /// The configuration's persisted text form.
    pub fn serialize(&self) -> (r: String)
        ensures
            r@ == ser_config(self.journal_path@),
    {
        let mut out: Vec<char> = Vec::new();
        let openv = config_open_vec();
        push_chars(&mut out, &openv);
        let content = str_to_chars(self.journal_path.as_str());
        push_escaped(&mut out, &content);
        out.push('"');
        out.push(')');
        proof {
            assert(out@ =~= ser_config(self.journal_path@));
        }
        chars_to_string(&out)
    }

    /// The configuration read back from its persisted text form. Succeeds
    /// exactly on a well-formed text; any other fails as a configuration
    /// file error.
    pub fn deserialize(text: &str) -> (r: Result<MoodConfig, MoodError>)
        ensures
            r is Ok <==> parse_config(text@) is Some,
            (match r {
                Ok(c) => parse_config(text@) == Some(c.journal_path@),
                Err(e) => e matches MoodError::ConfigFileError(_),
            }),
    {
        let v = str_to_chars(text);
        let openv = config_open_vec();
        proof {
            assert(v@.skip(0) =~= v@);
        }
        if !eq_at(&v, 0, &openv) {
            return Err(
                MoodError::ConfigFileError("could not parse the configuration file".to_owned()),
            );
        }
        let n = v.len();
        match parse_string_at(&v, 15) {
            Some(p) => {
                let (content, j) = p;
                if n - j == 1 && v[j] == ')' {
                    proof {
                        assert(v@.skip(j as int) =~= seq![')']);
                    }
                    let path = chars_to_string(&content);
                    Ok(MoodConfig { journal_path: path })
                } else {
                    proof {
                        let rest = v@.skip(j as int);
                        if rest.len() == 1 && rest[0] == ')' {
                            assert(v@[j as int] == rest[0]);
                        }
                        assert(rest != seq![')']);
                    }
                    Err(
                        MoodError::ConfigFileError(
                            "could not parse the configuration file".to_owned(),
                        ),
                    )
                }
            },
            None => {
                Err(MoodError::ConfigFileError("could not parse the configuration file".to_owned()))
            },
        }
    }

    /// The configuration at process start: the persisted text when the
    /// configuration file exists, the default for the configuration
    /// directory when it does not.
    pub fn init(contents: Option<&str>, config_dir: &str) -> (r: Result<MoodConfig, MoodError>)
        ensures
            (match contents {
                None => r matches Ok(c) && c.journal_path@ == config_dir@ + "/journal.ron"@,
                Some(text) => {
                    &&& (r is Ok <==> parse_config(text@) is Some)
                    &&& (match r {
                        Ok(c) => parse_config(text@) == Some(c.journal_path@),
                        Err(e) => e matches MoodError::ConfigFileError(_),
                    })
                },
            }),
    {
        match contents {
            None => Ok(MoodConfig::default_in(config_dir)),
            Some(text) => MoodConfig::deserialize(text),
        }
    }

    /// Replaces the journal path after stripping trailing newlines, when
    /// the stripped text is a usable path; otherwise leaves the
    /// configuration unchanged and reports the rejection.
    pub fn update_journal_path(&mut self, new_path: &str) -> (ok: bool)
        ensures
            ok == valid_path(strip_trailing_newlines(new_path@)),
            ok ==> final(self).journal_path@ == strip_trailing_newlines(new_path@),
            !ok ==> final(self).journal_path@ == old(self).journal_path@,
    {
        let mut chars = str_to_chars(new_path);
        proof {
            assert(strip_trailing_newlines(new_path@) == strip_trailing_newlines(chars@));
        }
        while chars.len() > 0 && chars[chars.len() - 1] == '\n'
            invariant
                strip_trailing_newlines(new_path@) == strip_trailing_newlines(chars@),
            decreases chars@.len(),
        {
            chars.pop();
        }
        proof {
            assert(strip_trailing_newlines(chars@) == chars@);
        }
        let n = chars.len();
        if n == 0 {
            return false;
        }
        let mut i: usize = 0;
        while i < n
            invariant
                i <= n,
                n == chars@.len(),
                strip_trailing_newlines(new_path@) == chars@,
                forall|k: int| 0 <= k < i ==> chars@[k] != '\0',
            decreases n - i,
        {
            if chars[i] == '\0' {
                proof {
                    assert(chars@[i as int] == '\0');
                    assert(!valid_path(chars@));
                }
                return false;
            }
            i = i + 1;
        }
        self.journal_path = chars_to_string(&chars);
        true
    }
}

} // verus!
