//! The decisions of the browser front ends: how each message changes the
//! page state, which request it sends, and what text a finished request
//! shows.
use vstd::prelude::*;

verus! {

/// The messages of the query page.
pub enum Msg {
    Load,
    Unload,
    Query,
    SiteData(String),
    LastNameChange(String),
    FirstNameChange(String),
}

/// The requests the query page sends to the service.
#[derive(PartialEq, Eq, Structural, Clone, Copy, Debug)]
pub enum Request {
    Load,
    Unload,
    Query,
}

/// What the page does after handling a message.
pub enum Command {
    /// Nothing more.
    Nothing,
    /// Send `request` to the address; its answer comes back through
    /// `fetch_reply` as a `SiteData` message.
    Fetch(Request, String),
    /// Send itself `SiteData` with this text.
    Show(String),
}

/// The state of the query page: the text shown and the two name fields.
pub struct App {
    pub site_data: String,
    pub last_name: String,
    pub first_name: String,
}

/// The address of the query request for the names `last` and `first`:
/// the full-name route when both are given, else the route of the one given.
pub open spec fn query_url(last: Seq<char>, first: Seq<char>) -> Seq<char> {
    if last.len() > 0 && first.len() > 0 {
        "http://35.87.106.62:8000/query"@ + "/full/"@ + last + "%20"@ + first
    } else if last.len() > 0 {
        "http://35.87.106.62:8000/query"@ + "/last/"@ + last
    } else {
        "http://35.87.106.62:8000/query"@ + "/first/"@ + first
    }
}

impl App {
    /// The page as it starts: nothing shown, both name fields empty.
    pub fn create() -> (app: App)
        ensures
            app.site_data@ == Seq::<char>::empty(),
            app.last_name@ == Seq::<char>::empty(),
            app.first_name@ == Seq::<char>::empty(),
    {
        App { site_data: String::new(), last_name: String::new(), first_name: String::new() }
    }

    /// What a query does with the current name fields: with both empty it
    /// shows a complaint and sends nothing, otherwise it sends the query to
    /// the address that `query_url` gives.
    pub fn query(&self) -> (cmd: Command)
        ensures
            self.last_name@.len() == 0 && self.first_name@.len() == 0 ==> (cmd matches Command::Show(
                t,
            ) && t@ == "Empty first and last name"@),
            !(self.last_name@.len() == 0 && self.first_name@.len() == 0) ==> (cmd matches Command::Fetch(
                r,
                url,
            ) && r == Request::Query && url@ == query_url(self.last_name@, self.first_name@)),
    {
        let last = self.last_name.as_str();
        let first = self.first_name.as_str();
        if last.is_empty() && first.is_empty() {
            return Command::Show("Empty first and last name".to_owned());
        }
        let mut url = "http://35.87.106.62:8000/query".to_owned();
        if !last.is_empty() && !first.is_empty() {
            url.append("/full/");
            url.append(last);
            url.append("%20");
            url.append(first);
        } else if !last.is_empty() {
            url.append("/last/");
            url.append(last);
        } else {
            url.append("/first/");
            url.append(first);
        }
        Command::Fetch(Request::Query, url)
    }

    /// Handles one message: `Load` and `Unload` send their request, `Query`
    /// does what `query` says, `SiteData` replaces the text shown, and a
    /// name change replaces that name field. No other part of the state
    /// changes.
    pub fn update(&mut self, msg: Msg) -> (cmd: Command)
        ensures
            match msg {
                Msg::Load => {
                    &&& cmd matches Command::Fetch(r, url) && r == Request::Load && url@
                        == "http://35.87.106.62:8000/load"@
                    &&& final(self).site_data@ == old(self).site_data@
                    &&& final(self).last_name@ == old(self).last_name@
                    &&& final(self).first_name@ == old(self).first_name@
                },
                Msg::Unload => {
                    &&& cmd matches Command::Fetch(r, url) && r == Request::Unload && url@
                        == "http://35.87.106.62:8000/unload"@
                    &&& final(self).site_data@ == old(self).site_data@
                    &&& final(self).last_name@ == old(self).last_name@
                    &&& final(self).first_name@ == old(self).first_name@
                },
                Msg::Query => {
                    &&& old(self).last_name@.len() == 0 && old(self).first_name@.len() == 0 ==> (
                    cmd matches Command::Show(t) && t@ == "Empty first and last name"@)
                    &&& !(old(self).last_name@.len() == 0 && old(self).first_name@.len() == 0) ==> (
                    cmd matches Command::Fetch(r, url) && r == Request::Query && url@ == query_url(
                        old(self).last_name@,
                        old(self).first_name@,
                    ))
                    &&& final(self).site_data@ == old(self).site_data@
                    &&& final(self).last_name@ == old(self).last_name@
                    &&& final(self).first_name@ == old(self).first_name@
                },
                Msg::SiteData(d) => {
                    &&& cmd is Nothing
                    &&& final(self).site_data@ == d@
                    &&& final(self).last_name@ == old(self).last_name@
                    &&& final(self).first_name@ == old(self).first_name@
                },
                Msg::LastNameChange(d) => {
                    &&& cmd is Nothing
                    &&& final(self).site_data@ == old(self).site_data@
                    &&& final(self).last_name@ == d@
                    &&& final(self).first_name@ == old(self).first_name@
                },
                Msg::FirstNameChange(d) => {
                    &&& cmd is Nothing
                    &&& final(self).site_data@ == old(self).site_data@
                    &&& final(self).last_name@ == old(self).last_name@
                    &&& final(self).first_name@ == d@
                },
            },
    {
        match msg {
            Msg::Load => Command::Fetch(Request::Load, "http://35.87.106.62:8000/load".to_owned()),
            Msg::Unload => Command::Fetch(
                Request::Unload,
                "http://35.87.106.62:8000/unload".to_owned(),
            ),
            Msg::Query => self.query(),
            Msg::SiteData(d) => {
                self.site_data = d;
                Command::Nothing
            },
            Msg::LastNameChange(d) => {
                self.last_name = d;
                Command::Nothing
            },
            Msg::FirstNameChange(d) => {
                self.first_name = d;
                Command::Nothing
            },
        }
    }
}

/// The text the query page shows once `request` finished: `body` is the
/// answer's text, or `None` when the request or the reading of its answer
/// failed.
pub fn fetch_reply(request: Request, body: Option<String>) -> (text: String)
    ensures
        match (request, body) {
            (Request::Load, Some(b)) => text@ == "Loaded: \n"@ + b@,
            (Request::Load, None) => text@ == "Error Loading"@,
            (Request::Unload, Some(b)) => text@ == b@,
            (Request::Unload, None) => text@ == "Error Unloading"@,
            (Request::Query, Some(b)) => text@ == "Queried: \n"@ + b@,
            (Request::Query, None) => text@ == "Error querying"@,
        },
{
    match (request, body) {
        (Request::Load, Some(b)) => {
            let mut t = "Loaded: \n".to_owned();
            t.append(b.as_str());
            t
        },
        (Request::Load, None) => "Error Loading".to_owned(),
        (Request::Unload, Some(b)) => b,
        (Request::Unload, None) => "Error Unloading".to_owned(),
        (Request::Query, Some(b)) => {
            let mut t = "Queried: \n".to_owned();
            t.append(b.as_str());
            t
        },
        (Request::Query, None) => "Error querying".to_owned(),
    }
}

/// The messages of the plain viewer page.
pub enum ViewerMsg {
    Load,
    Unload,
    Query,
    SiteData(String),
}

/// The state of the plain viewer page: the text it shows.
pub struct Viewer {
    pub site_data: String,
}

/// The address the plain viewer reads its text from.
pub open spec fn viewer_source() -> Seq<char> {
    "https://s3-us-west-2.amazonaws.com/css490/input.txt"@
}

impl Viewer {
    /// The viewer as it starts, showing nothing.
    pub fn create() -> (v: Viewer)
        ensures
            v.site_data@ == Seq::<char>::empty(),
    {
        Viewer { site_data: String::new() }
    }

    /// Handles one message: `Load` asks for the text at `viewer_source`
    /// (`Some` address to read), `SiteData` replaces the text shown, and the
    /// other messages do nothing.
    pub fn update(&mut self, msg: ViewerMsg) -> (fetch: Option<String>)
        ensures
            match msg {
                ViewerMsg::SiteData(d) => fetch is None && final(self).site_data@ == d@,
                ViewerMsg::Load => (fetch matches Some(url) && url@ == viewer_source())
                    && final(self).site_data@ == old(self).site_data@,
                _ => fetch is None && final(self).site_data@ == old(self).site_data@,
            },
    {
        match msg {
            ViewerMsg::Load => Some("https://s3-us-west-2.amazonaws.com/css490/input.txt".to_owned()),
            ViewerMsg::SiteData(d) => {
                self.site_data = d;
                None
            },
            _ => None,
        }
    }
}

/// The text the plain viewer shows once its read finished: the text read,
/// or nothing when the read failed.
pub fn viewer_reply(body: Option<String>) -> (text: String)
    ensures
        match body {
            Some(b) => text@ == b@,
            None => text@ == Seq::<char>::empty(),
        },
{
    match body {
        Some(b) => b,
        None => String::new(),
    }
}

} // verus!
