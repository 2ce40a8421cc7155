//! Request-side rules: the admin credential table, how a credential file's
//! lines are read, and how supplied credentials are judged.
//!
//! Reading the file and parsing the HTTP header stay at the boundary; the
//! library takes the lines and the parsed user id and password.

pub mod competitions;
pub mod results;
pub mod series;

use vstd::prelude::*;

verus! {

/// The admin credential table: user ids with their passwords, in file
/// order. A later line for the same user overrides an earlier one.
#[derive(Debug, Clone, PartialEq, Eq)]
pub struct AdminCredentials(pub Vec<(String, String)>);

/// Why supplied credentials are turned away.
#[derive(Debug, Clone, Copy, PartialEq, Eq)]
pub enum CredentialsError {
    Parse,
    MissingPassword,
    BadCredentials,
}

impl CredentialsError {
    /// The response text of the error.
    pub fn message(&self) -> (m: &'static str)
        ensures
            *self is Parse ==> m@ == "credentials couldn't be parsed"@,
            *self is MissingPassword ==> m@ == "password was not supplied in credentials"@,
            *self is BadCredentials ==> m@ == "credentials did not match any known admin"@,
    {
        match self {
            CredentialsError::Parse => "credentials couldn't be parsed",
            CredentialsError::MissingPassword => "password was not supplied in credentials",
            CredentialsError::BadCredentials => "credentials did not match any known admin",
        }
    }

    /// The HTTP status the error answers with: bad request for a garbled
    /// header, unauthorized for wrong credentials.
    pub fn status_code(&self) -> (c: u16)
        ensures
            c == 401 <==> *self is BadCredentials,
            c == 400 <==> !(*self is BadCredentials),
    {
        match self {
            CredentialsError::Parse => 400,
            CredentialsError::MissingPassword => 400,
            CredentialsError::BadCredentials => 401,
        }
    }
}

/// The stored password of a user: the last credential line naming them.
pub open spec fn stored_password(entries: Seq<(String, String)>, user: Seq<char>) -> Option<
    Seq<char>,
>
    decreases entries.len(),
{
    if entries.len() == 0 {
        None
    } else if entries.last().0@ == user {
        Some(entries.last().1@)
    } else {
        stored_password(entries.drop_last(), user)
    }
}

/// A line is skipped when it is empty or a comment.
pub open spec fn line_skipped(line: Seq<char>) -> bool {
    line.len() == 0 || line[0] == '#'
}

/// A colon, the separator of user id and password.
pub open spec fn is_colon() -> spec_fn(char) -> bool {
    |c: char| c == ':'
}

/// The entries a credential file's lines parse to: one per line that is
/// neither empty nor a comment, user and password split at the line's
/// first colon, in file order. A colonless line contributes nothing here;
/// the parser rejects the whole file on one.
pub open spec fn parsed_entries(lines: Seq<String>) -> Seq<(Seq<char>, Seq<char>)>
    decreases lines.len(),
{
    if lines.len() == 0 {
        Seq::empty()
    } else {
        let rest = parsed_entries(lines.drop_last());
        let l = lines.last()@;
        if line_skipped(l) {
            rest
        } else {
            let c = crate::nested::first_match_from(l, is_colon(), 0);
            if c >= l.len() {
                rest
            } else {
                rest.push((l.take(c), l.skip(c + 1)))
            }
        }
    }
}

/// The table's entries read exactly as the parsed pairs, in order.
pub open spec fn entries_match(es: Seq<(String, String)>, ps: Seq<(Seq<char>, Seq<char>)>) -> bool {
    &&& es.len() == ps.len()
    &&& forall|k: int|
        0 <= k < es.len() ==> (#[trigger] es[k]).0@ == ps[k].0 && es[k].1@ == ps[k].1
}

impl AdminCredentials {
    /// The stored password for a user id, if any.
    pub fn lookup(&self, user: &str) -> (r: Option<&String>)
        ensures
            r matches Some(p) ==> stored_password(self.0@, user@) == Some(p@),
            r is None ==> stored_password(self.0@, user@) is None,
    {
        let n = self.0.len();
        proof {
            assert(self.0@.take(n as int) =~= self.0@);
        }
        let mut i: usize = n;
        while i > 0
            invariant
                i <= n,
                n == self.0@.len(),
                stored_password(self.0@, user@) == stored_password(self.0@.take(i as int), user@),
            decreases i,
        {
            proof {
                assert(self.0@.take(i as int).last() == self.0@[i - 1]);
                assert(self.0@.take(i as int).drop_last() =~= self.0@.take(i - 1));
            }
            if crate::order::str_eq(self.0[i - 1].0.as_str(), user) {
                return Some(&self.0[i - 1].1);
            }
            i = i - 1;
        }
        proof {
            assert(self.0@.take(0) =~= Seq::<(String, String)>::empty());
        }
        None
    }

    /// Judge a parsed Authorization header against the table: a missing
    /// password is its own error; otherwise the stored password of the
    /// user must exist and match.
    pub fn check(&self, user: &str, password: Option<&str>) -> (r: Result<(), CredentialsError>)
        ensures
            r is Ok <==> (password matches Some(p) && stored_password(self.0@, user@) == Some(
                p@,
            )),
            r matches Err(e) ==> (e == CredentialsError::MissingPassword <==> password is None),
            r matches Err(e) ==> (e == CredentialsError::BadCredentials <==> (password is Some
                && stored_password(self.0@, user@) != Some(password.unwrap()@))),
    {
        match password {
            None => Err(CredentialsError::MissingPassword),
            Some(p) => {
                match self.lookup(user) {
                    None => Err(CredentialsError::BadCredentials),
                    Some(stored) => {
                        if crate::order::str_eq(stored.as_str(), p) {
                            Ok(())
                        } else {
                            Err(CredentialsError::BadCredentials)
                        }
                    },
                }
            },
        }
    }

    /// Build the table from the lines of a credential file: empty lines
    /// and `#` comments are skipped, every other line is `user:password`
    /// split at the first colon, kept in file order. One line without a
    /// colon rejects the whole file.
    pub fn from_lines(lines: &Vec<String>) -> (r: Result<AdminCredentials, CredentialsError>)
        ensures
            r is Err <==> (exists|i: int|
                0 <= i < lines@.len() && !line_skipped(#[trigger] lines@[i]@) && (forall|c: int|
                    0 <= c < lines@[i]@.len() ==> lines@[i]@[c] != ':')),
            r matches Err(e) ==> e == CredentialsError::Parse,
            r matches Ok(t) ==> entries_match(t.0@, parsed_entries(lines@)),
    {
        let mut entries: Vec<(String, String)> = Vec::new();
        let mut i: usize = 0;
        while i < lines.len()
            invariant
                i <= lines@.len(),
                entries_match(entries@, parsed_entries(lines@.take(i as int))),
                forall|i2: int|
                    0 <= i2 < i ==> line_skipped(#[trigger] lines@[i2]@) || (exists|c: int|
                        0 <= c < lines@[i2]@.len() && lines@[i2]@[c] == ':'),
            decreases lines@.len() - i,
        {
            let line = &lines[i];
            let len = line.unicode_len();
            proof {
                assert(lines@.take(i + 1).drop_last() =~= lines@.take(i as int));
                assert(lines@.take(i + 1).last() == lines@[i as int]);
            }
            if len == 0 || line.get_char(0) == '#' {
                proof {
                    assert(line_skipped(lines@[i as int]@));
                    assert(parsed_entries(lines@.take(i + 1)) == parsed_entries(
                        lines@.take(i as int),
                    ));
                }
                i = i + 1;
                continue ;
            }
            let mut c: usize = 0;
            while c < len && line.get_char(c) != ':'
                invariant
                    c <= len,
                    len == line@.len(),
                    forall|c2: int| 0 <= c2 < c ==> line@[c2] != ':',
                decreases len - c,
            {
                c = c + 1;
            }
            if c == len {
                proof {
                    assert(!line_skipped(lines@[i as int]@));
                }
                return Err(CredentialsError::Parse);
            }
            let user = line.substring_char(0, c);
            let pw = line.substring_char(c + 1, len);
            let ghost pre = entries@;
            entries.push((user.to_owned(), pw.to_owned()));
            proof {
                let l = lines@[i as int]@;
                assert(!line_skipped(l));
                assert(l[c as int] == ':');
                assert forall|c2: int| 0 <= c2 < c implies !(is_colon()(l[c2])) by {
                    assert(l[c2] != ':');
                }
                assert(is_colon()(l[c as int]));
                crate::nested::lemma_first_match_is(l, is_colon(), c as int);
                assert(parsed_entries(lines@.take(i + 1)) == parsed_entries(
                    lines@.take(i as int),
                ).push((l.take(c as int), l.skip(c + 1))));
                assert(user@ == l.take(c as int));
                assert(pw@ == l.skip(c + 1));
                assert(entries_match(entries@, parsed_entries(lines@.take(i + 1)))) by {
                    assert forall|k: int|
                        0 <= k < entries@.len() implies (#[trigger] entries@[k]).0@
                        == parsed_entries(lines@.take(i + 1))[k].0 && entries@[k].1@
                        == parsed_entries(lines@.take(i + 1))[k].1 by {
                        if k < pre.len() {
                            assert(entries@[k] == pre[k]);
                            assert(parsed_entries(lines@.take(i + 1))[k] == parsed_entries(
                                lines@.take(i as int),
                            )[k]);
                        }
                    }
                }
            }
            i = i + 1;
        }
        proof {
            assert(lines@.take(lines@.len() as int) =~= lines@);
        }
        let t = AdminCredentials(entries);
        proof {
            assert(entries_match(t.0@, parsed_entries(lines@)));
        }
        Ok(t)
    }
}

} // verus!
