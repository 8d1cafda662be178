//! Metric metadata: the retention scope of a metric and the data that identifies it.

use vstd::prelude::*;

verus! {

/// Retention scope of a recorded value. Each scope has a storage namespace of its own.
#[derive(Clone, Copy, Debug, PartialEq, Eq, Structural)]
pub enum Lifetime {
    /// Cleared whenever the ping that carries the value is sent.
    Ping,
    /// Kept for as long as the application runs.
    Application,
    /// Kept until the user's data is reset.
    User,
}

impl Lifetime {
    /// Name of the physical store that holds the values of this scope.
    pub open spec fn store_name(self) -> Seq<char> {
        match self {
            Lifetime::Ping => "ping"@,
            Lifetime::Application => "app"@,
            Lifetime::User => "user"@,
        }
    }

    /// Name of the physical store that holds the values of this scope.
    pub fn as_str(self) -> (name: &'static str)
        ensures
            name@ == self.store_name(),
    {
        match self {
            Lifetime::Ping => "ping",
            Lifetime::Application => "app",
            Lifetime::User => "user",
        }
    }
}

/// Store names tell the three scopes apart: no two scopes share a store.
pub proof fn lemma_store_names_distinct(a: Lifetime, b: Lifetime)
    requires
        a != b,
    ensures
        a.store_name() != b.store_name(),
{
    reveal_strlit("ping");
    reveal_strlit("app");
    reveal_strlit("user");
    assert("ping"@.len() == 4 && "app"@.len() == 3);
    assert("user"@[0] == 'u' && "ping"@[0] == 'p');
}

/// Appends `s` to `dst`.
///
/// Trusted: states of `String::push_str` that the string afterwards is the string
/// before followed by `s`.
#[verifier::external_body]
fn push_str(dst: &mut String, s: &str)
    ensures
        final(dst)@ == old(dst)@ + s@,
{
    dst.push_str(s)
}

/// What identifies a metric: its category and name, the lifetime of its values, and
/// the pings that its values are sent with.
#[derive(Clone, Debug)]
pub struct CommonMetricData {
    pub name: String,
    pub category: String,
    pub send_in_pings: Vec<String>,
    pub lifetime: Lifetime,
}

/// The key of a metric within a store: the name alone where the category is empty,
/// otherwise category, a dot, and name.
pub open spec fn identifier_of(category: Seq<char>, name: Seq<char>) -> Seq<char> {
    if category.len() == 0 {
        name
    } else {
        category + seq!['.'] + name
    }
}

impl CommonMetricData {
    /// The metric's key within a store.
    pub open spec fn spec_identifier(&self) -> Seq<char> {
        identifier_of(self.category@, self.name@)
    }

    /// The names of the pings that the metric is sent with, in their order.
    pub open spec fn ping_names(&self) -> Seq<Seq<char>> {
        Seq::new(self.send_in_pings@.len(), |i: int| self.send_in_pings@[i]@)
    }

    /// Metadata of the metric `category.name`.
    pub fn new(category: &str, name: &str, send_in_pings: Vec<String>, lifetime: Lifetime) -> (meta:
        CommonMetricData)
        ensures
            meta.category@ == category@,
            meta.name@ == name@,
            meta.send_in_pings == send_in_pings,
            meta.lifetime == lifetime,
    {
        CommonMetricData { name: name.to_owned(), category: category.to_owned(), send_in_pings, lifetime }
    }

    /// The metric's key within a store.
    pub fn identifier(&self) -> (id: String)
        ensures
            id@ == self.spec_identifier(),
    {
        if self.category.as_str().is_empty() {
            self.name.clone()
        } else {
            let mut id = self.category.clone();
            proof {
                reveal_strlit(".");
                assert("."@ =~= seq!['.']);
            }
            push_str(&mut id, ".");
            push_str(&mut id, self.name.as_str());
            id
        }
    }
}

} // verus!
