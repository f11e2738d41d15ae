//! Where the store lives, which markets are searched, and which currency totals are shown in.

use vstd::prelude::*;

use crate::text::{
    strs,
    ascii_lower, ascii_lower_chars, chars_end_with, chars_eq, chars_of, ends_with, push_char,
};

verus! {

/// Which exchanges ticker search is allowed to return.
#[derive(Clone, Copy, Debug, PartialEq, Eq)]
pub enum Scope {
    Norway,
    Scandinavia,
    Nordics,
    Europe,
    Global,
}

/// Each scope admits the exchanges its name promises, and each wider scope everything a
/// narrower one does: Norway admits Oslo (`.OL`); Scandinavia adds Stockholm (`.ST`) and
/// Copenhagen (`.CO`); the Nordics add Helsinki (`.HE`) and Reykjavik (`.IC`); Europe adds
/// Frankfurt (`.DE`), Paris (`.PA`), Amsterdam (`.AS`), London (`.L`) and Milan (`.MI`); and
/// the global scope admits every symbol.
pub proof fn law_each_scope_admits_its_exchanges(symbol: Seq<char>)
    ensures
        ends_with(symbol, ".OL"@) ==> Scope::Norway.spec_accepts(symbol),
        ends_with(symbol, ".OL"@) || ends_with(symbol, ".ST"@) || ends_with(symbol, ".CO"@)
            ==> Scope::Scandinavia.spec_accepts(symbol),
        ends_with(symbol, ".OL"@) || ends_with(symbol, ".ST"@) || ends_with(symbol, ".CO"@)
            || ends_with(symbol, ".HE"@) || ends_with(symbol, ".IC"@)
            ==> Scope::Nordics.spec_accepts(symbol),
        ends_with(symbol, ".OL"@) || ends_with(symbol, ".ST"@) || ends_with(symbol, ".CO"@)
            || ends_with(symbol, ".HE"@) || ends_with(symbol, ".IC"@) || ends_with(symbol, ".DE"@)
            || ends_with(symbol, ".PA"@) || ends_with(symbol, ".AS"@) || ends_with(symbol, ".L"@)
            || ends_with(symbol, ".MI"@) ==> Scope::Europe.spec_accepts(symbol),
        Scope::Global.spec_accepts(symbol),
        Scope::Norway.spec_accepts(symbol) ==> Scope::Scandinavia.spec_accepts(symbol),
        Scope::Scandinavia.spec_accepts(symbol) ==> Scope::Nordics.spec_accepts(symbol),
        Scope::Nordics.spec_accepts(symbol) ==> Scope::Europe.spec_accepts(symbol),
{
    let n = Scope::Norway.spec_suffixes();
    let s = Scope::Scandinavia.spec_suffixes();
    let d = Scope::Nordics.spec_suffixes();
    let e = Scope::Europe.spec_suffixes();
    assert(n[0] == ".OL"@);
    assert(s[0] == ".OL"@ && s[1] == ".ST"@ && s[2] == ".CO"@);
    assert(d[0] == ".OL"@ && d[1] == ".ST"@ && d[2] == ".CO"@ && d[3] == ".HE"@ && d[4] == ".IC"@);
    assert(e[0] == ".OL"@ && e[1] == ".ST"@ && e[2] == ".CO"@ && e[3] == ".HE"@ && e[4]
        == ".IC"@);
    assert(e[5] == ".DE"@ && e[6] == ".PA"@ && e[7] == ".AS"@ && e[8] == ".L"@ && e[9]
        == ".MI"@);
    if Scope::Norway.spec_accepts(symbol) {
        let i = choose|i: int| 0 <= i < n.len() && ends_with(symbol, #[trigger] n[i]);
        assert(ends_with(symbol, s[i]));
    }
    if Scope::Scandinavia.spec_accepts(symbol) {
        let i = choose|i: int| 0 <= i < s.len() && ends_with(symbol, #[trigger] s[i]);
        assert(ends_with(symbol, d[i]));
    }
    if Scope::Nordics.spec_accepts(symbol) {
        let i = choose|i: int| 0 <= i < d.len() && ends_with(symbol, #[trigger] d[i]);
        assert(ends_with(symbol, e[i]));
    }
}

/// The scope a fresh install searches in.
pub fn default_scope() -> (r: Scope)
    ensures
        r == Scope::Scandinavia,
{
    Scope::Scandinavia
}

impl Scope {
    /// Yahoo exchange suffixes this scope admits. Empty means "everything".
    pub open spec fn spec_suffixes(self) -> Seq<Seq<char>> {
        match self {
            Scope::Norway => seq![".OL"@],
            Scope::Scandinavia => seq![".OL"@, ".ST"@, ".CO"@],
            Scope::Nordics => seq![".OL"@, ".ST"@, ".CO"@, ".HE"@, ".IC"@],
            Scope::Europe => seq![
                ".OL"@,
                ".ST"@,
                ".CO"@,
                ".HE"@,
                ".IC"@,
                ".DE"@,
                ".PA"@,
                ".AS"@,
                ".L"@,
                ".MI"@,
            ],
            Scope::Global => Seq::<Seq<char>>::empty(),
        }
    }

    /// The currency code totals are shown in for this scope.
    pub open spec fn spec_default_currency(self) -> Seq<char> {
        match self {
            Scope::Norway | Scope::Scandinavia | Scope::Nordics => "NOK"@,
            Scope::Europe => "EUR"@,
            Scope::Global => "USD"@,
        }
    }

    /// Whether a symbol ends in one of the scope's suffixes, or the scope has none.
    pub open spec fn spec_accepts(self, symbol: Seq<char>) -> bool {
        self.spec_suffixes().len() == 0 || exists|i: int|
            0 <= i < self.spec_suffixes().len() && ends_with(
                symbol,
                #[trigger] self.spec_suffixes()[i],
            )
    }

    /// The scope a name stands for, compared without regard to ASCII case.
    pub open spec fn spec_parse(s: Seq<char>) -> Option<Scope> {
        let l = ascii_lower(s);
        if l == "norway"@ {
            Some(Scope::Norway)
        } else if l == "scandinavia"@ {
            Some(Scope::Scandinavia)
        } else if l == "nordics"@ {
            Some(Scope::Nordics)
        } else if l == "europe"@ {
            Some(Scope::Europe)
        } else if l == "global"@ {
            Some(Scope::Global)
        } else {
            None
        }
    }

    /// The name a scope is stored and shown under.
    pub open spec fn spec_name(self) -> Seq<char> {
        match self {
            Scope::Norway => "norway"@,
            Scope::Scandinavia => "scandinavia"@,
            Scope::Nordics => "nordics"@,
            Scope::Europe => "europe"@,
            Scope::Global => "global"@,
        }
    }

    pub fn name(&self) -> (r: &'static str)
        ensures
            r@ == self.spec_name(),
    {
        match self {
            Scope::Norway => "norway",
            Scope::Scandinavia => "scandinavia",
            Scope::Nordics => "nordics",
            Scope::Europe => "europe",
            Scope::Global => "global",
        }
    }

    pub fn suffixes(&self) -> (r: Vec<&'static str>)
        ensures
            strs(r@) == self.spec_suffixes(),
    {
        let r: Vec<&'static str> = match self {
            Scope::Norway => vec![".OL"],
            Scope::Scandinavia => vec![".OL", ".ST", ".CO"],
            Scope::Nordics => vec![".OL", ".ST", ".CO", ".HE", ".IC"],
            Scope::Europe => vec![".OL", ".ST", ".CO", ".HE", ".IC", ".DE", ".PA", ".AS", ".L", ".MI"],
            Scope::Global => Vec::new(),
        };
        assert(strs(r@) =~= self.spec_suffixes());
        r
    }

    pub fn default_currency(&self) -> (r: &'static str)
        ensures
            r@ == self.spec_default_currency(),
    {
        match self {
            Scope::Norway | Scope::Scandinavia | Scope::Nordics => "NOK",
            Scope::Europe => "EUR",
            Scope::Global => "USD",
        }
    }

    /// Whether a Yahoo symbol belongs to this scope. A suffix-less symbol is a US listing.
    pub fn accepts(&self, symbol: &str) -> (r: bool)
        ensures
            r == self.spec_accepts(symbol@),
    {
        let suffixes = self.suffixes();
        if suffixes.len() == 0 {
            return true;
        }
        let sym = chars_of(symbol);
        let mut i: usize = 0;
        while i < suffixes.len()
            invariant
                i <= suffixes@.len(),
                strs(suffixes@) == self.spec_suffixes(),
                sym@ == symbol@,
                forall|j: int| 0 <= j < i ==> !ends_with(symbol@, #[trigger] self.spec_suffixes()[j]),
            decreases suffixes@.len() - i,
        {
            let suf = chars_of(suffixes[i]);
            assert(suf@ == self.spec_suffixes()[i as int]);
            if chars_end_with(&sym, &suf) {
                return true;
            }
            i += 1;
        }
        false
    }

    pub fn parse(s: &str) -> (r: Option<Scope>)
        ensures
            r == Scope::spec_parse(s@),
    {
        let l = ascii_lower_chars(&chars_of(s));
        if chars_eq(&l, &chars_of("norway")) {
            Some(Scope::Norway)
        } else if chars_eq(&l, &chars_of("scandinavia")) {
            Some(Scope::Scandinavia)
        } else if chars_eq(&l, &chars_of("nordics")) {
            Some(Scope::Nordics)
        } else if chars_eq(&l, &chars_of("europe")) {
            Some(Scope::Europe)
        } else if chars_eq(&l, &chars_of("global")) {
            Some(Scope::Global)
        } else {
            None
        }
    }
}

/// A scope read back from the name it is stored under is the same scope.
pub proof fn law_scope_round_trips_through_its_name(s: Scope)
    ensures
        Scope::spec_parse(s.spec_name()) == Some(s),
{
    reveal_strlit("norway");
    reveal_strlit("scandinavia");
    reveal_strlit("nordics");
    reveal_strlit("europe");
    reveal_strlit("global");
    let n = s.spec_name();
    assert(ascii_lower(n) =~= n);
    let names = seq!["norway"@, "scandinavia"@, "nordics"@, "europe"@, "global"@];
    assert forall|i: int, j: int| 0 <= i < j < 5 implies #[trigger] names[i] != #[trigger] names[j] by {
        assert(names[i][0] != names[j][0] || names[i].len() != names[j].len());
    }
    assert(names[0] == "norway"@ && names[1] == "scandinavia"@ && names[2] == "nordics"@);
    assert(names[3] == "europe"@ && names[4] == "global"@);
}

/// `dir` joined with a relative file name, as `Path::join` writes it on Unix: a separator is
/// added unless `dir` is empty or already ends in one.
pub open spec fn path_join(dir: Seq<char>, name: Seq<char>) -> Seq<char> {
    if dir.len() == 0 {
        name
    } else if dir.last() == '/' {
        dir + name
    } else {
        dir + seq!['/'] + name
    }
}

pub fn join_path(dir: &str, name: &str) -> (r: String)
    ensures
        r@ == path_join(dir@, name@),
{
    let d = chars_of(dir);
    let mut out = String::from_str(dir);
    if d.len() > 0 && d[d.len() - 1] != '/' {
        push_char(&mut out, '/');
    }
    out.append(name);
    proof {
        if dir@.len() > 0 {
            assert(dir@.last() == d@[d@.len() - 1]);
        }
    }
    out
}

/// Everything the server needs to know that is not in the store file.
#[derive(Clone, Debug)]
pub struct Config {
    /// Directory holding portfolios.json and quotes.json.
    pub store_dir: String,
    pub scope: Scope,
}

impl Config {
    pub fn new(store_dir: String, scope: Scope) -> (r: Config)
        ensures
            r.store_dir@ == store_dir@,
            r.scope == scope,
    {
        Config { store_dir, scope }
    }

    /// The default local store, `.meridian` in the home directory, or in the working directory
    /// when there is no home. A server is always given one explicitly.
    pub fn default_store_dir(home: Option<&str>) -> (r: String)
        ensures
            r@ == path_join(
                match home {
                    Some(h) => h@,
                    None => "."@,
                },
                ".meridian"@,
            ),
    {
        match home {
            Some(h) => join_path(h, ".meridian"),
            None => join_path(".", ".meridian"),
        }
    }

    pub fn portfolios_path(&self) -> (r: String)
        ensures
            r@ == path_join(self.store_dir@, "portfolios.json"@),
    {
        join_path(self.store_dir.as_str(), "portfolios.json")
    }

    /// Where a damaged store file is copied before the damage is reported.
    pub fn backup_path(&self) -> (r: String)
        ensures
            r@ == path_join(self.store_dir@, "portfolios.json.bak"@),
    {
        join_path(self.store_dir.as_str(), "portfolios.json.bak")
    }

    /// Where a store is written before it is renamed over the old one.
    pub fn temp_path(&self) -> (r: String)
        ensures
            r@ == path_join(self.store_dir@, "portfolios.json.tmp"@),
    {
        join_path(self.store_dir.as_str(), "portfolios.json.tmp")
    }

    /// The lock file guarding both reads and writes of the store directory.
    pub fn lock_path(&self) -> (r: String)
        ensures
            r@ == path_join(self.store_dir@, ".lock"@),
    {
        join_path(self.store_dir.as_str(), ".lock")
    }

    pub fn quotes_path(&self) -> (r: String)
        ensures
            r@ == path_join(self.store_dir@, "quotes.json"@),
    {
        join_path(self.store_dir.as_str(), "quotes.json")
    }
}

} // verus!
