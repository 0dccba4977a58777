//! Request authentication shared by scraping and remote write.

use crate::config::{Authorization, BasicAuth, TlsConfig};
use crate::text::{chars_of, joined, string_between};
use vstd::prelude::*;
use vstd::string::*;

verus! {

/// Whether the TLS settings can be honored: client certificates can not.
pub fn check_tls(tls: &TlsConfig) -> (r: Result<(), String>)
    ensures
        match r {
            Ok(_) => tls.cert_file is None && tls.key_file is None,
            Err(message) => (tls.cert_file is Some || tls.key_file is Some) && message@
                == "tls_config cert_file/key_file (client certificates) are not supported yet"@,
        },
{
    if tls.cert_file.is_some() || tls.key_file.is_some() {
        Err(
            "tls_config cert_file/key_file (client certificates) are not supported yet".to_owned(),
        )
    } else {
        Ok(())
    }
}

/// Pre-resolved request credentials.
///
/// Credential files are read once at startup; hot-reload of credential files
/// is not supported.
#[derive(Debug, Clone)]
pub enum Credentials {
    Anonymous,
    Basic { username: String, password: String },
    /// Pre-formatted `Authorization` header value, e.g. `Bearer <token>`.
    Header(String),
}

/// What credentials hold.
pub enum CredentialsView {
    Anonymous,
    Basic { username: Seq<char>, password: Seq<char> },
    Header(Seq<char>),
}

impl DeepView for Credentials {
    type V = CredentialsView;

    open spec fn deep_view(&self) -> CredentialsView {
        match *self {
            Credentials::Anonymous => CredentialsView::Anonymous,
            Credentials::Basic { username, password } => CredentialsView::Basic {
                username: username@,
                password: password@,
            },
            Credentials::Header(value) => CredentialsView::Header(value@),
        }
    }
}

impl Default for Credentials {
    fn default() -> (r: Self)
        ensures
            r is Anonymous,
    {
        Credentials::Anonymous
    }
}

/// Whether a character ends a line.
pub open spec fn ends_line(c: char) -> bool {
    c == '\n' || c == '\r'
}

/// A text without the line endings at its end.
pub open spec fn without_newlines(s: Seq<char>) -> Seq<char>
    decreases s.len(),
{
    if s.len() > 0 && ends_line(s.last()) {
        without_newlines(s.drop_last())
    } else {
        s
    }
}

/// The secret that a file holds: its contents without the line endings at
/// their end.
pub fn secret_of(contents: &str) -> (r: String)
    ensures
        r@ == without_newlines(contents@),
{
    let v = chars_of(contents);
    let ghost all = contents@;
    let mut end: usize = v.len();
    assert(all.take(end as int) =~= all);
    while end > 0 && (v[end - 1] == '\n' || v[end - 1] == '\r')
        invariant
            v@ == all,
            end <= v@.len(),
            without_newlines(all) == without_newlines(all.take(end as int)),
        decreases end,
    {
        assert(all.take(end as int).drop_last() =~= all.take(end - 1));
        end -= 1;
    }
    assert(all.take(end as int) =~= all.subrange(0, end as int));
    string_between(v.as_slice(), 0, end)
}

/// The view of an optional text.
pub open spec fn text_view(o: Option<&str>) -> Option<Seq<char>> {
    match o {
        Some(s) => Some(s@),
        None => None,
    }
}

/// The file that holds a secret given either directly or by a file.
pub open spec fn file_for(direct: Option<String>, file: Option<String>) -> Option<Seq<char>> {
    match (direct, file) {
        (None, Some(file)) => Some(file@),
        _ => None,
    }
}

/// The file whose contents the credentials depend on, where there is one. The
/// settings are looked at in order, and the first that is there decides.
pub open spec fn needed_file(
    basic_auth: Option<BasicAuth>,
    authorization: Option<Authorization>,
    bearer_token: Option<Seq<char>>,
    bearer_token_file: Option<Seq<char>>,
) -> Option<Seq<char>> {
    match (basic_auth, authorization, bearer_token) {
        (Some(basic), _, _) => file_for(basic.password, basic.password_file),
        (None, Some(authorization), _) => file_for(
            authorization.credentials,
            authorization.credentials_file,
        ),
        (None, None, Some(_)) => None,
        (None, None, None) => bearer_token_file,
    }
}

/// The secret that is given directly or by a file: none where both are given,
/// the empty one where neither is.
pub open spec fn given_secret(
    direct: Option<String>,
    file: Option<String>,
    contents: Seq<char>,
) -> Option<Seq<char>> {
    match (direct, file) {
        (Some(direct), None) => Some(direct@),
        (None, Some(_)) => Some(without_newlines(contents)),
        (None, None) => Some(Seq::empty()),
        (Some(_), Some(_)) => None,
    }
}

/// The credentials that the settings give, where `contents` is what the
/// needed file holds.
pub open spec fn resolved(
    basic_auth: Option<BasicAuth>,
    authorization: Option<Authorization>,
    bearer_token: Option<Seq<char>>,
    bearer_token_file: Option<Seq<char>>,
    contents: Seq<char>,
) -> Result<CredentialsView, Seq<char>> {
    match (basic_auth, authorization, bearer_token, bearer_token_file) {
        (Some(basic), _, _, _) => match given_secret(
            basic.password,
            basic.password_file,
            contents,
        ) {
            Some(password) => Ok(
                CredentialsView::Basic { username: basic.username@, password },
            ),
            None => Err("basic_auth: password and password_file are mutually exclusive"@),
        },
        (None, Some(authorization), _, _) => match given_secret(
            authorization.credentials,
            authorization.credentials_file,
            contents,
        ) {
            Some(credentials) => Ok(
                CredentialsView::Header(authorization.type_@ + " "@ + credentials),
            ),
            None => Err("authorization: credentials and credentials_file are mutually exclusive"@),
        },
        (None, None, Some(token), _) => Ok(CredentialsView::Header("Bearer "@ + token)),
        (None, None, None, Some(_)) => Ok(
            CredentialsView::Header("Bearer "@ + without_newlines(contents)),
        ),
        (None, None, None, None) => Ok(CredentialsView::Anonymous),
    }
}

/// Names the file for a secret given either directly or by a file.
fn file_of(direct: &Option<String>, file: &Option<String>) -> (r: Option<String>)
    ensures
        r.deep_view() == file_for(*direct, *file),
{
    match (direct, file) {
        (None, Some(file)) => Some(file.clone()),
        _ => None,
    }
}

/// Picks the secret that is given directly or by a file.
fn pick_secret(direct: &Option<String>, file: &Option<String>, contents: &str) -> (r: Option<
    String,
>)
    ensures
        r.deep_view() == given_secret(*direct, *file, contents@),
{
    match (direct, file) {
        (Some(direct), None) => Some(direct.clone()),
        (None, Some(_)) => Some(secret_of(contents)),
        (None, None) => {
            let empty = String::new();
            assert(empty@ =~= Seq::<char>::empty());
            Some(empty)
        },
        (Some(_), Some(_)) => None,
    }
}

impl Credentials {
    /// The file that has to be read to resolve the credentials, where there
    /// is one.
    pub fn secret_file(
        basic_auth: &Option<BasicAuth>,
        authorization: &Option<Authorization>,
        bearer_token: Option<&str>,
        bearer_token_file: Option<&str>,
    ) -> (r: Option<String>)
        ensures
            r.deep_view() == needed_file(
                *basic_auth,
                *authorization,
                text_view(bearer_token),
                text_view(bearer_token_file),
            ),
    {
        if let Some(basic) = basic_auth {
            return file_of(&basic.password, &basic.password_file);
        }
        if let Some(authorization) = authorization {
            return file_of(&authorization.credentials, &authorization.credentials_file);
        }
        match (bearer_token, bearer_token_file) {
            (None, Some(file)) => Some(file.to_owned()),
            _ => None,
        }
    }

    /// Resolves the credentials. `contents` is what the file that
    /// [`Credentials::secret_file`] names holds.
    pub fn resolve(
        basic_auth: &Option<BasicAuth>,
        authorization: &Option<Authorization>,
        bearer_token: Option<&str>,
        bearer_token_file: Option<&str>,
        contents: &str,
    ) -> (r: Result<Self, String>)
        ensures
            match r {
                Ok(credentials) => resolved(
                    *basic_auth,
                    *authorization,
                    text_view(bearer_token),
                    text_view(bearer_token_file),
                    contents@,
                ) == Ok::<CredentialsView, Seq<char>>(credentials.deep_view()),
                Err(message) => resolved(
                    *basic_auth,
                    *authorization,
                    text_view(bearer_token),
                    text_view(bearer_token_file),
                    contents@,
                ) == Err::<CredentialsView, Seq<char>>(message@),
            },
    {
        if let Some(basic) = basic_auth {
            return match pick_secret(&basic.password, &basic.password_file, contents) {
                Some(password) => Ok(
                    Credentials::Basic { username: basic.username.clone(), password },
                ),
                None => Err(
                    "basic_auth: password and password_file are mutually exclusive".to_owned(),
                ),
            };
        }
        if let Some(authorization) = authorization {
            return match pick_secret(
                &authorization.credentials,
                &authorization.credentials_file,
                contents,
            ) {
                Some(credentials) => {
                    let mut value = joined(authorization.type_.as_str(), " ");
                    value.append(credentials.as_str());
                    Ok(Credentials::Header(value))
                },
                None => Err(
                    "authorization: credentials and credentials_file are mutually exclusive".to_owned(),
                ),
            };
        }
        if let Some(token) = bearer_token {
            return Ok(Credentials::Header(joined("Bearer ", token)));
        }
        if let Some(_) = bearer_token_file {
            return Ok(Credentials::Header(joined("Bearer ", secret_of(contents).as_str())));
        }
        Ok(Credentials::Anonymous)
    }
}

/// What a file holds matters only where a file is needed.
pub proof fn lemma_contents_unused(
    basic_auth: Option<BasicAuth>,
    authorization: Option<Authorization>,
    bearer_token: Option<Seq<char>>,
    bearer_token_file: Option<Seq<char>>,
    a: Seq<char>,
    b: Seq<char>,
)
    requires
        needed_file(basic_auth, authorization, bearer_token, bearer_token_file) is None,
    ensures
        resolved(basic_auth, authorization, bearer_token, bearer_token_file, a) == resolved(
            basic_auth,
            authorization,
            bearer_token,
            bearer_token_file,
            b,
        ),
{
}

/// A secret never ends in a line ending, and nothing but line endings is cut
/// off its end.
pub proof fn lemma_secret_trimmed(s: Seq<char>)
    ensures
        without_newlines(s).len() <= s.len(),
        without_newlines(s).len() > 0 ==> !ends_line(without_newlines(s).last()),
        without_newlines(s) == s.take(without_newlines(s).len() as int),
        forall|i: int| without_newlines(s).len() <= i < s.len() ==> ends_line(#[trigger] s[i]),
    decreases s.len(),
{
    if s.len() > 0 && ends_line(s.last()) {
        lemma_secret_trimmed(s.drop_last());
        let kept = without_newlines(s).len() as int;
        assert(s.drop_last().take(kept) =~= s.take(kept));
        assert forall|i: int| kept <= i < s.len() implies ends_line(#[trigger] s[i]) by {
            if i < s.len() - 1 {
                assert(s.drop_last()[i] == s[i]);
            }
        }
    } else {
        assert(s.take(s.len() as int) =~= s);
    }
}

} // verus!
