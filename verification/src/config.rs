use vstd::prelude::*;

verus! {

/// A secret held so that nothing prints it by accident: it is only ever
/// read out deliberately, and its display form is a fixed mask.
pub struct SecretString {
    secret: String,
}

impl SecretString {
    pub closed spec fn spec_value(self) -> Seq<char> {
        self.secret@
    }

    pub fn new(secret: String) -> (r: SecretString)
        ensures
            r.spec_value() == secret@,
    {
        SecretString { secret }
    }

    /// Read the secret out, deliberately.
    pub fn expose(self) -> (r: String)
        ensures
            r@ == self.spec_value(),
    {
        self.secret
    }

    /// What any log or debug output shows instead of the secret.
    pub fn masked(&self) -> (r: String)
        ensures
            r@ == "#SECRET#"@,
    {
        String::from_str("#SECRET#")
    }
}

/// The provider credentials and redirect origin; present only when the
/// integration is configured.
pub struct StravaConfig {
    pub client_id: String,
    pub client_secret: String,
    pub redirect_origin: String,
}

impl StravaConfig {
    /// The provider authorization URL for one handshake: fixed endpoint
    /// and response type, the configured client and origin, and the
    /// caller's path, scopes and state token.
    pub fn oauth_url(&self, redirect_path: &str, scope: &str, state: &str) -> (r: String)
        ensures
            r@ == "https://www.strava.com/oauth/authorize?client_id="@ + self.client_id@
                + "&redirect_uri="@ + self.redirect_origin@ + redirect_path@
                + "&response_type=code&scope="@ + scope@ + "&state="@ + state@,
    {
        let mut url = String::from_str("https://www.strava.com/oauth/authorize?client_id=");
        url.append(self.client_id.as_str());
        url.append("&redirect_uri=");
        url.append(self.redirect_origin.as_str());
        url.append(redirect_path);
        url.append("&response_type=code&scope=");
        url.append(scope);
        url.append("&state=");
        url.append(state);
        url
    }
}

/// Assemble the provider configuration; it exists only when all three
/// settings were given, else the integration stays inert.
pub fn strava_config(
    client_id: Option<String>,
    client_secret: Option<SecretString>,
    redirect_origin: Option<String>,
) -> (r: Option<StravaConfig>)
    ensures
        r is Some <==> (client_id is Some && client_secret is Some && redirect_origin is Some),
        r matches Some(c) ==> {
            &&& Some(c.client_id) == client_id
            &&& c.client_secret@ == client_secret->0.spec_value()
            &&& Some(c.redirect_origin) == redirect_origin
        },
{
    match (client_id, client_secret, redirect_origin) {
        (Some(client_id), Some(client_secret), Some(redirect_origin)) => Some(
            StravaConfig { client_id, client_secret: client_secret.expose(), redirect_origin },
        ),
        _ => None,
    }
}

} // verus!
