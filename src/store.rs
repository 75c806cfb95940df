//! A store of mail records: one file per record, named by the record, in a
//! flat root directory. The store keeps no state but its root; reading and
//! writing the files is left to the caller, which hands over what it read.
use vstd::prelude::*;
use crate::listing::{is_listing, names_of, select_mail_names};
use crate::mail::Mail;
use crate::names::{lemma_file_name_matches, mail_file_name};

verus! {

/// Name of the environment variable that says where mail is stored.
pub const ENV_MAIL_STORE_PATH: &'static str = "TRAPMAIL_STORE";

/// The root used when `ENV_MAIL_STORE_PATH` is not set.
pub const DEFAULT_MAIL_STORE_PATH: &'static str = "/tmp";

pub open spec fn default_root() -> Seq<char> {
    seq!['/', 't', 'm', 'p']
}

/// `name` under the directory `root`, as `Path::join` forms it: an absolute
/// `name` stands alone, and one separator stands between the two otherwise.
pub open spec fn joined(root: Seq<char>, name: Seq<char>) -> Seq<char> {
    if name.len() > 0 && name[0] == '/' {
        name
    } else if root.len() == 0 {
        name
    } else if root.last() == '/' {
        root + name
    } else {
        root + seq!['/'] + name
    }
}

/// A record whose file stands among a store directory's entries is in the
/// store's listing of them, under the name it was added with.
pub proof fn lemma_added_mail_listed(
    entries: Seq<Seq<char>>,
    names: Seq<Seq<char>>,
    timestamp_us: nat,
    ppid: int,
    pid: int,
)
    requires
        ppid >= 0,
        pid >= 0,
        entries.contains(mail_file_name(timestamp_us, ppid, pid)),
        is_listing(entries, names),
    ensures
        names.contains(mail_file_name(timestamp_us, ppid, pid)),
{
    lemma_file_name_matches(timestamp_us, ppid, pid);
}

/// Mail storage under one root directory.
#[derive(Debug)]
pub struct MailStore {
    root: String,
}

impl View for MailStore {
    type V = Seq<char>;

    /// The root directory.
    closed spec fn view(&self) -> Seq<char> {
        self.root@
    }
}

impl MailStore {
    /// A store at the configured root: `configured` is the value of
    /// `ENV_MAIL_STORE_PATH`, `None` where it is not set.
    pub fn new(configured: Option<String>) -> (r: MailStore)
        ensures
            r@ == (match configured {
                Some(p) => p@,
                None => default_root(),
            }),
    {
        proof {
            reveal_strlit("/tmp");
        }
        match configured {
            Some(p) => MailStore::with_root(p),
            None => {
                let r = MailStore::with_root(String::from_str(DEFAULT_MAIL_STORE_PATH));
                assert(r@ =~= default_root());
                r
            },
        }
    }

    /// A store at an explicit root.
    pub fn with_root(root: String) -> (r: MailStore)
        ensures
            r@ == root@,
    {
        MailStore { root }
    }

    /// The root directory.
    pub fn root(&self) -> (r: &str)
        ensures
            r@ == self@,
    {
        self.root.as_str()
    }

    /// The path of the file `name` in this store.
    pub fn path_of(&self, name: &str) -> (r: String)
        ensures
            r@ == joined(self@, name@),
    {
        proof {
            reveal_strlit("/");
        }
        let n = name.unicode_len();
        if n > 0 && name.get_char(0) == '/' {
            return String::from_str(name);
        }
        let k = self.root.as_str().unicode_len();
        if k == 0 {
            return String::from_str(name);
        }
        let mut r = self.root.clone();
        if self.root.as_str().get_char(k - 1) != '/' {
            r.append("/");
        }
        r.append(name);
        assert(r@ =~= joined(self@, name@));
        r
    }

    /// The path at which `mail` is stored in this store.
    pub fn path_for(&self, mail: &Mail) -> (r: String)
        ensures
            r@ == joined(self@, mail_file_name(mail.timestamp_us as nat, mail.ppid as int, mail.pid as int)),
    {
        let name = mail.file_name();
        self.path_of(name.as_str())
    }

    /// The paths of the mail files among the directory entries `entries`, in
    /// the order they are to be loaded: by name, each once. Entries that are
    /// not mail files are passed over.
    pub fn mail_paths(&self, entries: &Vec<String>) -> (r: Vec<String>)
        ensures
            exists|names: Seq<Seq<char>>|
                {
                    &&& is_listing(names_of(entries@), names)
                    &&& r.len() == names.len()
                    &&& forall|k: int| 0 <= k < r.len() ==> #[trigger] r[k]@ == joined(self@, names[k])
                },
    {
        let names = select_mail_names(entries);
        let mut r: Vec<String> = Vec::new();
        let mut k: usize = 0;
        while k < names.len()
            invariant
                k <= names.len(),
                r.len() == k,
                forall|q: int| 0 <= q < k ==> #[trigger] r[q]@ == joined(self@, names[q]@),
            decreases names.len() - k,
        {
            r.push(self.path_of(names[k].as_str()));
            k += 1;
        }
        let ghost w = names_of(names@);
        assert(forall|q: int| 0 <= q < r.len() ==> #[trigger] r[q]@ == joined(self@, w[q]));
        assert(r.len() == w.len());
        assert(is_listing(names_of(entries@), w));
        r
    }
}

} // verus!
