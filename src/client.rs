use vstd::prelude::*;

verus! {

/// Whether `i` is where the hyphenated form of a UUID has a hyphen.
pub open spec fn is_hyphen_position(i: int) -> bool {
    i == 8 || i == 13 || i == 18 || i == 23
}

/// Whether `s` has the hyphenated form of a UUID: 36 characters, hyphens after the groups of
/// 8, 4, 4 and 4 digits, lower-case hexadecimal digits elsewhere.
pub open spec fn is_hyphenated_uuid(s: Seq<char>) -> bool {
    &&& s.len() == 36
    &&& forall|i: int|
        0 <= i < 36 ==> if is_hyphen_position(i) {
            #[trigger] s[i] == '-'
        } else {
            ('0' <= s[i] && s[i] <= '9') || ('a' <= s[i] && s[i] <= 'f')
        }
}

/// Relies on `uuid::Uuid::new_v4` and the `Display` of `Hyphenated`: a random UUID written in
/// lower-case hyphenated form.
#[verifier::external_body]
fn random_client_key() -> (r: String)
    ensures
        is_hyphenated_uuid(r@),
{
    uuid::Uuid::new_v4().to_hyphenated().to_string()
}

/// The settings of a client.
#[derive(Clone)]
pub struct ClientOptions {
    pub key: String,
    pub sync_loop_duration: u32,
    pub reconnect_stream_delay: u32,
}

impl ClientOptions {
    /// Settings with a fresh random key, a sync loop of 50 and a reconnect delay of 1000.
    pub fn default() -> (r: ClientOptions)
        ensures
            is_hyphenated_uuid(r.key@),
            r.sync_loop_duration == 50,
            r.reconnect_stream_delay == 1000,
    {
        let key = random_client_key();
        ClientOptions { key, sync_loop_duration: 50, reconnect_stream_delay: 1000 }
    }
}

/// A client of a document server: where to reach it, its settings, and whether it is active.
/// The exchanges with the server are made by the caller; the client decides what to send and
/// records what came back.
pub struct Client {
    client_id: Option<Vec<u8>>,
    pub rpc_address: String,
    pub options: ClientOptions,
    pub is_active: bool,
}

impl Client {
    /// The id that the server gave at activation, while the client is active.
    pub closed spec fn client_id_view(&self) -> Option<Seq<u8>> {
        match self.client_id {
            Some(id) => Some(id@),
            None => None,
        }
    }

    pub closed spec fn active(&self) -> bool {
        self.is_active
    }

    pub closed spec fn address(&self) -> String {
        self.rpc_address
    }

    pub closed spec fn settings(&self) -> ClientOptions {
        self.options
    }

    /// A client with default settings.
    pub fn new(rpc_address: String) -> (r: Client)
        ensures
            r.address() == rpc_address,
            is_hyphenated_uuid(r.settings().key@),
            r.settings().sync_loop_duration == 50,
            r.settings().reconnect_stream_delay == 1000,
            !r.active(),
            r.client_id_view() is None,
    {
        Self::with_options(rpc_address, ClientOptions::default())
    }

    /// A client with the given settings.
    pub fn with_options(rpc_address: String, options: ClientOptions) -> (r: Client)
        ensures
            r.address() == rpc_address,
            r.settings() == options,
            !r.active(),
            r.client_id_view() is None,
    {
        Client { client_id: None, rpc_address, options, is_active: false }
    }

    /// The key to send in an activation request, or nothing where the client is already active.
    pub fn activation_request(&self) -> (r: Option<String>)
        ensures
            r is None <==> self.active(),
            r is Some ==> r->Some_0@ == self.settings().key@,
    {
        if self.is_active {
            None
        } else {
            Some(self.options.key.clone())
        }
    }

    /// Records a successful activation, with the id that the server gave.
    pub fn activated(&mut self, client_id: Vec<u8>)
        ensures
            final(self).active(),
            final(self).client_id_view() == Some(client_id@),
            final(self).settings() == old(self).settings(),
            final(self).address() == old(self).address(),
    {
        self.client_id = Some(client_id);
        self.is_active = true;
    }

    /// The id to send in a deactivation request, or nothing where the client is not active.
    pub fn deactivation_request(&self) -> (r: Option<Vec<u8>>)
        ensures
            match r {
                Some(id) => self.active() && self.client_id_view() == Some(id@),
                None => !self.active() || self.client_id_view() is None,
            },
    {
        if !self.is_active {
            return None;
        }
        match &self.client_id {
            Some(id) => Some(id.clone()),
            None => None,
        }
    }

    /// Records a successful deactivation.
    pub fn deactivated(&mut self)
        ensures
            !final(self).active(),
            final(self).client_id_view() is None,
            final(self).settings() == old(self).settings(),
            final(self).address() == old(self).address(),
    {
        self.client_id = None;
        self.is_active = false;
    }
}

} // verus!
