//! The bundled static assets the index page needs, and the content-type
//! rules for serving them.

use vstd::prelude::*;
use crate::text::{chars_end_with, str_to_chars};

verus! {

/// Whether `s` ends with `suffix`.
pub open spec fn ends_with(s: Seq<char>, suffix: Seq<char>) -> bool {
    s.len() >= suffix.len() && s.skip(s.len() - suffix.len()) == suffix
}

/// The content type inferred from an asset's name: by its extension for
/// styles, scripts and pages, and plain text for everything else.
pub open spec fn content_type_of(name: Seq<char>) -> Seq<char> {
    if ends_with(name, ".css"@) {
        "text/css"@
    } else if ends_with(name, ".js"@) {
        "application/javascript"@
    } else if ends_with(name, ".html"@) {
        "text/html"@
    } else {
        "text/plain"@
    }
}

/// Infers the content type to serve an asset with, from its name's
/// extension.
pub fn guess_content_type(name: &String) -> (r: String)
    ensures
        r@ == content_type_of(name@),
{
    let chars = str_to_chars(name.as_str());
    let css = str_to_chars(".css");
    let js = str_to_chars(".js");
    let html = str_to_chars(".html");
    if chars_end_with(&chars, &css) {
        "text/css".to_owned()
    } else if chars_end_with(&chars, &js) {
        "application/javascript".to_owned()
    } else if chars_end_with(&chars, &html) {
        "text/html".to_owned()
    } else {
        "text/plain".to_owned()
    }
}

/// The bundled assets: each name mapped to its content.  Names are kept
/// unique; the first registration of a name wins.
pub struct AssetTable {
    assets: Vec<(String, String)>,
}

impl AssetTable {
    /// The table's entries, in registration order.
    pub closed spec fn entries(self) -> Seq<(Seq<char>, Seq<char>)> {
        self.assets@.map(|i: int, p: (String, String)| (p.0@, p.1@))
    }

    /// Whether some entry of `es` is named `name`.
    pub open spec fn carries(es: Seq<(Seq<char>, Seq<char>)>, name: Seq<char>) -> bool {
        exists|i: int| 0 <= i < es.len() && (#[trigger] es[i]).0 == name
    }

    /// Whether an asset called `name` is bundled.
    pub open spec fn contains_name(self, name: Seq<char>) -> bool {
        AssetTable::carries(self.entries(), name)
    }

    /// The index of `name` among the entries.
    pub closed spec fn index_of(self, name: Seq<char>) -> int {
        choose|i: int| 0 <= i < self.entries().len() && (#[trigger] self.entries()[i]).0 == name
    }

    /// The content bundled under `name`.
    pub open spec fn content_of(self, name: Seq<char>) -> Seq<char> {
        self.entries()[self.index_of(name)].1
    }

    /// Each asset name occurs exactly once.
    pub open spec fn wf(self) -> bool {
        forall|i: int, j: int|
            0 <= i < j < self.entries().len()
                ==> (#[trigger] self.entries()[i]).0 != (#[trigger] self.entries()[j]).0
    }

    /// An empty table.
    pub fn new() -> (t: AssetTable)
        ensures
            t.wf(),
            t.entries() == Seq::<(Seq<char>, Seq<char>)>::empty(),
    {
        let t = AssetTable { assets: Vec::new() };
        proof {
            assert(t.entries() =~= Seq::<(Seq<char>, Seq<char>)>::empty());
        }
        t
    }

    /// Bundles `content` under `name`; a name already taken keeps its
    /// first content.
    pub fn insert(&mut self, name: String, content: String)
        requires
            old(self).wf(),
        ensures
            final(self).wf(),
            old(self).contains_name(name@) ==> final(self).entries() == old(self).entries(),
            !old(self).contains_name(name@) ==> final(self).entries() == old(self).entries().push(
                (name@, content@),
            ),
    {
        let ghost nm = name@;
        let n = self.assets.len();
        let mut k: usize = 0;
        while k < n
            invariant
                old(self).wf(),
                n == self.assets@.len(),
                k <= n,
                self == old(self),
                nm == name@,
                forall|i: int| 0 <= i < k ==> (#[trigger] self.entries()[i]).0 != nm,
            decreases n - k,
        {
            if self.assets[k].0 == name {
                proof {
                    assert((self.entries()[k as int]).0 == nm);
                }
                return ;
            }
            k = k + 1;
        }
        proof {
            assert(!self.contains_name(nm));
        }
        let ghost pre = self.entries();
        self.assets.push((name, content));
        proof {
            assert(self.entries() =~= pre.push((nm, content@)));
            assert forall|i: int, j: int|
                0 <= i < j < self.entries().len() implies (#[trigger] self.entries()[i]).0 != (
            #[trigger] self.entries()[j]).0 by {
                if j < self.entries().len() - 1 {
                    assert((old(self).entries()[i]).0 != (old(self).entries()[j]).0);
                } else {
                    assert((self.entries()[i]).0 == (old(self).entries()[i]).0);
                    assert(!old(self).contains_name(nm));
                }
            }
        }
    }

    /// Looks `name` up: its content where the asset is bundled, and
    /// nothing where it is not.
    pub fn lookup(&self, name: &String) -> (r: Option<String>)
        requires
            self.wf(),
        ensures
            self.contains_name(name@) ==> (r matches Option::Some(c) && c@ == self.content_of(
                name@,
            )),
            !self.contains_name(name@) ==> r is None,
    {
        let n = self.assets.len();
        let mut k: usize = 0;
        while k < n
            invariant
                self.wf(),
                n == self.assets@.len(),
                k <= n,
                forall|i: int| 0 <= i < k ==> (#[trigger] self.entries()[i]).0 != name@,
            decreases n - k,
        {
            if self.assets[k].0 == *name {
                proof {
                    assert((self.entries()[k as int]).0 == name@);
                    self.lemma_index_of(name@);
                }
                return Option::Some(self.assets[k].1.clone());
            }
            k = k + 1;
        }
        proof {
            assert(!self.contains_name(name@));
        }
        Option::None
    }

    /// In a well-formed table, `index_of` names the one entry of `name`.
    proof fn lemma_index_of(self, name: Seq<char>)
        requires
            self.wf(),
            self.contains_name(name),
        ensures
            0 <= self.index_of(name) < self.entries().len(),
            (self.entries()[self.index_of(name)]).0 == name,
            forall|i: int|
                0 <= i < self.entries().len() && (#[trigger] self.entries()[i]).0 == name
                    ==> i == self.index_of(name),
    {
    }
}

/// Registers the four assets the visualization page ships with, under
/// their serving names, with the given contents.
pub fn bundled_asset_table(
    index_html: String,
    arbor_js: String,
    arbor_tween_js: String,
    jquery_js: String,
) -> (t: AssetTable)
    ensures
        t.wf(),
        t.entries() == seq![
            ("index.html"@, index_html@),
            ("js/arbor.js"@, arbor_js@),
            ("js/arbor-tween.js"@, arbor_tween_js@),
            ("js/jquery.min.js"@, jquery_js@),
        ],
        t.contains_name("index.html"@) && t.content_of("index.html"@) == index_html@,
        t.contains_name("js/arbor.js"@) && t.content_of("js/arbor.js"@) == arbor_js@,
        t.contains_name("js/arbor-tween.js"@) && t.content_of("js/arbor-tween.js"@)
            == arbor_tween_js@,
        t.contains_name("js/jquery.min.js"@) && t.content_of("js/jquery.min.js"@) == jquery_js@,
{
    proof {
        reveal_strlit("index.html");
        reveal_strlit("js/arbor.js");
        reveal_strlit("js/arbor-tween.js");
        reveal_strlit("js/jquery.min.js");
        assert("index.html"@.len() == 10);
        assert("js/arbor.js"@.len() == 11);
        assert("js/arbor-tween.js"@.len() == 17);
        assert("js/jquery.min.js"@.len() == 16);
    }
    let mut t = AssetTable::new();
    t.insert("index.html".to_owned(), index_html);
    let ghost e1 = t.entries();
    proof {
        assert(e1.len() == 1 && (e1[0]).0 == "index.html"@ && (e1[0]).1 == index_html@);
    }
    t.insert("js/arbor.js".to_owned(), arbor_js);
    let ghost e2 = t.entries();
    proof {
        assert(!AssetTable::carries(e1, "js/arbor.js"@)) by {
            assert((e1[0]).0 != "js/arbor.js"@);
        }
        assert(e2 == e1.push(("js/arbor.js"@, arbor_js@)));
        assert((e2[0]).0 == "index.html"@ && (e2[1]).0 == "js/arbor.js"@);
    }
    t.insert("js/arbor-tween.js".to_owned(), arbor_tween_js);
    let ghost e3 = t.entries();
    proof {
        assert(!AssetTable::carries(e2, "js/arbor-tween.js"@)) by {
            assert((e2[0]).0 != "js/arbor-tween.js"@ && (e2[1]).0 != "js/arbor-tween.js"@);
        }
        assert(e3 == e2.push(("js/arbor-tween.js"@, arbor_tween_js@)));
    }
    t.insert("js/jquery.min.js".to_owned(), jquery_js);
    proof {
        assert(!AssetTable::carries(e3, "js/jquery.min.js"@)) by {
            assert((e3[0]).0 != "js/jquery.min.js"@ && (e3[1]).0 != "js/jquery.min.js"@ && (
            e3[2]).0 != "js/jquery.min.js"@);
        }
        assert(t.entries() == e3.push(("js/jquery.min.js"@, jquery_js@)));
        assert((t.entries()[0]).0 == "index.html"@ && (t.entries()[0]).1 == index_html@);
        assert((t.entries()[1]).0 == "js/arbor.js"@ && (t.entries()[1]).1 == arbor_js@);
        assert((t.entries()[2]).0 == "js/arbor-tween.js"@ && (t.entries()[2]).1
            == arbor_tween_js@);
        assert((t.entries()[3]).0 == "js/jquery.min.js"@ && (t.entries()[3]).1 == jquery_js@);
        t.lemma_index_of("index.html"@);
        t.lemma_index_of("js/arbor.js"@);
        t.lemma_index_of("js/arbor-tween.js"@);
        t.lemma_index_of("js/jquery.min.js"@);
        assert(t.entries() =~~= seq![
            ("index.html"@, index_html@),
            ("js/arbor.js"@, arbor_js@),
            ("js/arbor-tween.js"@, arbor_tween_js@),
            ("js/jquery.min.js"@, jquery_js@),
        ]);
    }
    t
}

} // verus!
