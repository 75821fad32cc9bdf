//! The configuration tree.  The config file is XML; parsing and
//! writing the file is the persistence layer's business, outside this
//! library.  The tree itself is modelled here as plain values, and
//! everything the watcher reads from it — the bot token, the main
//! channel id, the alt/canonical mappings — is computed here, with
//! the same child-lookup and text rules the persistence layer uses:
//! a child lookup finds the first element child with the given name,
//! and an element's text is its text children run together (none at
//! all meaning no text).

use vstd::prelude::*;

use crate::report::concat_all;
use crate::text::{all_digits, dec_value, parse_u64, str_chars, str_eq};

verus! {

/// A node of the configuration tree.
#[derive(Debug)]
pub enum XmlNode {
    Element(XmlElement),
    Text(String),
}

/// An element of the configuration tree.
#[derive(Debug)]
pub struct XmlElement {
    pub name: String,
    pub attributes: Vec<(String, String)>,
    pub children: Vec<XmlNode>,
}

/// Whether this node is an element with the given name.
pub open spec fn node_is_named(n: XmlNode, name: Seq<char>) -> bool {
    match n {
        XmlNode::Element(e) => e.name@ == name,
        XmlNode::Text(_) => false,
    }
}

/// The first element child with the given name.
pub open spec fn spec_get_child(children: Seq<XmlNode>, name: Seq<char>) -> Option<XmlElement>
    decreases children.len(),
{
    if children.len() == 0 {
        None
    } else if node_is_named(children[0], name) {
        match children[0] {
            XmlNode::Element(e) => Some(e),
            XmlNode::Text(_) => None,
        }
    } else {
        spec_get_child(children.drop_first(), name)
    }
}

/// The contents of the text children, in order.
pub open spec fn spec_texts(children: Seq<XmlNode>) -> Seq<Seq<char>>
    decreases children.len(),
{
    if children.len() == 0 {
        Seq::empty()
    } else {
        (match children[0] {
            XmlNode::Text(s) => seq![s@],
            XmlNode::Element(_) => Seq::empty(),
        }) + spec_texts(children.drop_first())
    }
}

/// An element's text: its text children run together, or nothing when
/// it has no text child at all.
pub open spec fn spec_get_text(children: Seq<XmlNode>) -> Option<Seq<char>> {
    if spec_texts(children).len() == 0 {
        None
    } else {
        Some(concat_all(spec_texts(children)))
    }
}

/// The first value under the given attribute key.
pub open spec fn spec_attr(attrs: Seq<(String, String)>, key: Seq<char>) -> Option<Seq<char>>
    decreases attrs.len(),
{
    if attrs.len() == 0 {
        None
    } else if attrs[0].0@ == key {
        Some(attrs[0].1@)
    } else {
        spec_attr(attrs.drop_first(), key)
    }
}

proof fn lemma_get_child_at(children: Seq<XmlNode>, name: Seq<char>, i: int)
    requires
        0 <= i < children.len(),
        node_is_named(children[i], name),
        forall|j: int| 0 <= j < i ==> !node_is_named(#[trigger] children[j], name),
    ensures
        spec_get_child(children, name) == (match children[i] {
            XmlNode::Element(e) => Some(e),
            XmlNode::Text(_) => None,
        }),
    decreases i,
{
    if i > 0 {
        lemma_get_child_at(children.drop_first(), name, i - 1);
    }
}

proof fn lemma_get_child_none(children: Seq<XmlNode>, name: Seq<char>)
    requires
        forall|j: int| 0 <= j < children.len() ==> !node_is_named(#[trigger] children[j], name),
    ensures
        spec_get_child(children, name).is_none(),
    decreases children.len(),
{
    if children.len() > 0 {
        lemma_get_child_none(children.drop_first(), name);
    }
}

/// Finds the first element child with the given name, as
/// [`spec_get_child`] says.
pub fn get_child<'a>(e: &'a XmlElement, name: &str) -> (r: Option<&'a XmlElement>)
    ensures
        match r {
            Some(c) => spec_get_child(e.children@, name@) == Some(*c),
            None => spec_get_child(e.children@, name@).is_none(),
        },
{
    let mut i: usize = 0;
    while i < e.children.len()
        invariant
            i <= e.children@.len(),
            forall|j: int| 0 <= j < i ==> !node_is_named(#[trigger] e.children@[j], name@),
        decreases e.children@.len() - i,
    {
        match &e.children[i] {
            XmlNode::Element(c) => {
                if str_eq(c.name.as_str(), name) {
                    proof {
                        lemma_get_child_at(e.children@, name@, i as int);
                    }
                    return Some(c);
                }
            },
            XmlNode::Text(_) => {},
        }
        assert(!node_is_named(e.children@[i as int], name@));
        i = i + 1;
    }
    proof {
        lemma_get_child_none(e.children@, name@);
    }
    None
}

/// Collects the element's text, as [`spec_get_text`] says.
pub fn get_text(e: &XmlElement) -> (r: Option<String>)
    ensures
        match r {
            Some(s) => spec_get_text(e.children@) == Some(s@),
            None => spec_get_text(e.children@).is_none(),
        },
{
    let ghost cs = e.children@;
    let mut acc = String::new();
    let mut seen = false;
    let mut i: usize = 0;
    proof {
        assert(cs.skip(0) =~= cs);
        assert(spec_texts(cs.take(0)) =~= Seq::<Seq<char>>::empty());
        assert(concat_all(spec_texts(cs.take(0))) =~= Seq::<char>::empty());
    }
    while i < e.children.len()
        invariant
            i <= e.children@.len(),
            cs == e.children@,
            acc@ == concat_all(spec_texts(cs.take(i as int))),
            seen == (spec_texts(cs.take(i as int)).len() > 0),
        decreases e.children@.len() - i,
    {
        let ghost pre = cs.take(i as int);
        match &e.children[i] {
            XmlNode::Text(s) => {
                acc.append(s.as_str());
                seen = true;
            },
            XmlNode::Element(_) => {},
        }
        i = i + 1;
        proof {
            let now = cs.take(i as int);
            lemma_texts_push(pre, cs[i - 1]);
            assert(now =~= pre.push(cs[i - 1]));
            assert(spec_texts(now) == spec_texts(pre.push(cs[i - 1])));
            match cs[i - 1] {
                XmlNode::Text(s) => {
                    assert(spec_texts(now) =~= spec_texts(pre).push(s@));
                    lemma_concat_all_push(spec_texts(pre), s@);
                },
                XmlNode::Element(_) => {
                    assert(spec_texts(now) =~= spec_texts(pre));
                },
            }
        }
    }
    proof {
        assert(cs.take(i as int) =~= cs);
    }
    if seen {
        Some(acc)
    } else {
        None
    }
}

proof fn lemma_texts_push(children: Seq<XmlNode>, n: XmlNode)
    ensures
        spec_texts(children.push(n)) == spec_texts(children) + (match n {
            XmlNode::Text(s) => seq![s@],
            XmlNode::Element(_) => Seq::<Seq<char>>::empty(),
        }),
    decreases children.len(),
{
    if children.len() == 0 {
        reveal_with_fuel(spec_texts, 3);
        assert(children.push(n)[0] == n);
        assert(children.push(n).drop_first() =~= Seq::<XmlNode>::empty());
        assert(spec_texts(children.push(n)) =~= spec_texts(children) + (match n {
            XmlNode::Text(s) => seq![s@],
            XmlNode::Element(_) => Seq::<Seq<char>>::empty(),
        }));
    } else {
        assert(children.push(n).drop_first() =~= children.drop_first().push(n));
        lemma_texts_push(children.drop_first(), n);
        assert(spec_texts(children.push(n)) =~= spec_texts(children) + (match n {
            XmlNode::Text(s) => seq![s@],
            XmlNode::Element(_) => Seq::<Seq<char>>::empty(),
        }));
    }
}

proof fn lemma_concat_all_push(ts: Seq<Seq<char>>, s: Seq<char>)
    ensures
        concat_all(ts.push(s)) == concat_all(ts) + s,
    decreases ts.len(),
{
    if ts.len() == 0 {
        reveal_with_fuel(concat_all, 3);
        assert(ts.push(s)[0] == s);
        assert(ts.push(s).drop_first() =~= Seq::<Seq<char>>::empty());
        assert(concat_all(ts.push(s)) =~= concat_all(ts) + s);
    } else {
        assert(ts.push(s).drop_first() =~= ts.drop_first().push(s));
        lemma_concat_all_push(ts.drop_first(), s);
        assert(concat_all(ts.push(s)) =~= concat_all(ts) + s);
    }
}

/// The bot token the configuration carries: the text of the
/// `BotToken` child.
pub open spec fn spec_bot_token(doc: XmlElement) -> Option<Seq<char>> {
    match spec_get_child(doc.children@, "BotToken"@) {
        None => None,
        Some(e) => spec_get_text(e.children@),
    }
}

/// Reads the bot token, as [`spec_bot_token`] says.
pub fn get_bot_token(doc: &XmlElement) -> (r: Option<String>)
    ensures
        match r {
            Some(s) => spec_bot_token(*doc) == Some(s@),
            None => spec_bot_token(*doc).is_none(),
        },
{
    match get_child(doc, "BotToken") {
        None => None,
        Some(e) => get_text(e),
    }
}

/// The main channel id: the text of the `MainChannel` child read as a
/// decimal number, if it is one and fits.
pub open spec fn spec_main_channel(doc: XmlElement) -> Option<u64> {
    match spec_get_child(doc.children@, "MainChannel"@) {
        None => None,
        Some(e) => match spec_get_text(e.children@) {
            None => None,
            Some(t) => if t.len() >= 1 && all_digits(t) && dec_value(t) <= u64::MAX {
                Some(dec_value(t) as u64)
            } else {
                None
            },
        },
    }
}

/// Reads the main channel id, as [`spec_main_channel`] says.
pub fn get_main_channel(doc: &XmlElement) -> (r: Option<u64>)
    ensures
        r == spec_main_channel(*doc),
{
    match get_child(doc, "MainChannel") {
        None => None,
        Some(e) => match get_text(e) {
            None => None,
            Some(t) => {
                let cs = str_chars(t.as_str());
                parse_u64(&cs)
            },
        },
    }
}

/// One stored mapping: a `Mapping` element with an `alternative`
/// attribute and a text body.
pub open spec fn spec_mapping_of(n: XmlNode) -> Option<(Seq<char>, Seq<char>)> {
    match n {
        XmlNode::Element(m) => if m.name@ == "Mapping"@ {
            match spec_attr(m.attributes@, "alternative"@) {
                None => None,
                Some(alt) => match spec_get_text(m.children@) {
                    None => None,
                    Some(og) => Some((alt, og)),
                },
            }
        } else {
            None
        },
        XmlNode::Text(_) => None,
    }
}

/// The well-formed mappings among the given nodes, in order.
pub open spec fn spec_mapping_list(children: Seq<XmlNode>) -> Seq<(Seq<char>, Seq<char>)>
    decreases children.len(),
{
    if children.len() == 0 {
        Seq::empty()
    } else {
        (match spec_mapping_of(children[0]) {
            Some(p) => seq![p],
            None => Seq::empty(),
        }) + spec_mapping_list(children.drop_first())
    }
}

/// The mappings the configuration stores: the well-formed `Mapping`
/// children of the `Mappings` child, in document order.
pub open spec fn spec_mappings(doc: XmlElement) -> Seq<(Seq<char>, Seq<char>)> {
    match spec_get_child(doc.children@, "Mappings"@) {
        None => Seq::empty(),
        Some(e) => spec_mapping_list(e.children@),
    }
}

/// Looks an attribute up, as [`spec_attr`] says.
pub fn get_attr<'a>(attrs: &'a Vec<(String, String)>, key: &str) -> (r: Option<&'a String>)
    ensures
        match r {
            Some(v) => spec_attr(attrs@, key@) == Some(v@),
            None => spec_attr(attrs@, key@).is_none(),
        },
{
    let mut i: usize = 0;
    while i < attrs.len()
        invariant
            i <= attrs@.len(),
            forall|j: int| 0 <= j < i ==> (#[trigger] attrs@[j]).0@ != key@,
        decreases attrs@.len() - i,
    {
        if str_eq(attrs[i].0.as_str(), key) {
            proof {
                lemma_attr_at(attrs@, key@, i as int);
            }
            return Some(&attrs[i].1);
        }
        i = i + 1;
    }
    proof {
        lemma_attr_none(attrs@, key@);
    }
    None
}

proof fn lemma_attr_at(attrs: Seq<(String, String)>, key: Seq<char>, i: int)
    requires
        0 <= i < attrs.len(),
        attrs[i].0@ == key,
        forall|j: int| 0 <= j < i ==> (#[trigger] attrs[j]).0@ != key,
    ensures
        spec_attr(attrs, key) == Some(attrs[i].1@),
    decreases i,
{
    if i > 0 {
        lemma_attr_at(attrs.drop_first(), key, i - 1);
    }
}

proof fn lemma_attr_none(attrs: Seq<(String, String)>, key: Seq<char>)
    requires
        forall|j: int| 0 <= j < attrs.len() ==> (#[trigger] attrs[j]).0@ != key,
    ensures
        spec_attr(attrs, key).is_none(),
    decreases attrs.len(),
{
    if attrs.len() > 0 {
        lemma_attr_none(attrs.drop_first(), key);
    }
}

/// Collects the stored mappings, as [`spec_mappings`] says: each
/// entry maps an alt name to the canonical series name.
pub fn get_mappings(doc: &XmlElement) -> (r: Vec<(String, String)>)
    ensures
        crate::state::pair_views(r@) == spec_mappings(*doc),
{
    let mut out: Vec<(String, String)> = Vec::new();
    match get_child(doc, "Mappings") {
        None => {
            proof {
                assert(crate::state::pair_views(out@) =~= spec_mappings(*doc));
            }
            out
        },
        Some(e) => {
            let ghost cs = e.children@;
            let mut i: usize = 0;
            proof {
                assert(cs.skip(0) =~= cs);
                assert(crate::state::pair_views(out@) + spec_mapping_list(cs) =~= spec_mapping_list(
                    cs,
                ));
            }
            while i < e.children.len()
                invariant
                    i <= e.children@.len(),
                    cs == e.children@,
                    crate::state::pair_views(out@) + spec_mapping_list(cs.skip(i as int))
                        == spec_mapping_list(cs),
                decreases e.children@.len() - i,
            {
                let ghost pre = cs.skip(i as int);
                let ghost out0 = crate::state::pair_views(out@);
                assert(pre[0] == cs[i as int]);
                match &e.children[i] {
                    XmlNode::Element(m) => {
                        if str_eq(m.name.as_str(), "Mapping") {
                            match get_attr(&m.attributes, "alternative") {
                                Some(alt) => match get_text(m) {
                                    Some(og) => {
                                        let pair = (alt.clone(), og);
                                        out.push(pair);
                                        proof {
                                            assert(spec_mapping_of(cs[i as int]).is_some());
                                            assert(crate::state::pair_views(out@) =~= out0.push(
                                                match spec_mapping_of(cs[i as int]) {
                                                    Some(p) => p,
                                                    None => (Seq::empty(), Seq::empty()),
                                                },
                                            ));
                                        }
                                    },
                                    None => {
                                        assert(spec_mapping_of(cs[i as int]).is_none());
                                    },
                                },
                                None => {
                                    assert(spec_mapping_of(cs[i as int]).is_none());
                                },
                            }
                        } else {
                            assert(spec_mapping_of(cs[i as int]).is_none());
                        }
                    },
                    XmlNode::Text(_) => {
                        assert(spec_mapping_of(cs[i as int]).is_none());
                    },
                }
                i = i + 1;
                proof {
                    assert(pre.drop_first() =~= cs.skip(i as int));
                    assert(crate::state::pair_views(out@) + spec_mapping_list(cs.skip(i as int))
                        =~= out0 + spec_mapping_list(pre));
                }
            }
            proof {
                assert(cs.skip(i as int) =~= Seq::<XmlNode>::empty());
                assert(crate::state::pair_views(out@) =~= spec_mapping_list(cs));
            }
            out
        },
    }
}


proof fn lemma_mapping_list_push(children: Seq<XmlNode>, n: XmlNode)
    ensures
        spec_mapping_list(children.push(n)) == spec_mapping_list(children) + (
        match spec_mapping_of(n) {
            Some(p) => seq![p],
            None => Seq::<(Seq<char>, Seq<char>)>::empty(),
        }),
    decreases children.len(),
{
    if children.len() == 0 {
        reveal_with_fuel(spec_mapping_list, 3);
        assert(children.push(n)[0] == n);
        assert(children.push(n).drop_first() =~= Seq::<XmlNode>::empty());
        assert(spec_mapping_list(children.push(n)) =~= spec_mapping_list(children) + (
        match spec_mapping_of(n) {
            Some(p) => seq![p],
            None => Seq::<(Seq<char>, Seq<char>)>::empty(),
        }));
    } else {
        assert(children.push(n).drop_first() =~= children.drop_first().push(n));
        lemma_mapping_list_push(children.drop_first(), n);
        assert(spec_mapping_list(children.push(n)) =~= spec_mapping_list(children) + (
        match spec_mapping_of(n) {
            Some(p) => seq![p],
            None => Seq::<(Seq<char>, Seq<char>)>::empty(),
        }));
    }
}

proof fn lemma_get_child_update_other(children: Seq<XmlNode>, i: int, n: XmlNode, name: Seq<char>)
    requires
        0 <= i < children.len(),
        !node_is_named(children[i], name),
        !node_is_named(n, name),
    ensures
        spec_get_child(children.update(i, n), name) == spec_get_child(children, name),
    decreases i,
{
    let c1 = children.update(i, n);
    if i == 0 {
        assert(c1.drop_first() =~= children.drop_first());
    } else {
        assert(c1.drop_first() =~= children.drop_first().update(i - 1, n));
        lemma_get_child_update_other(children.drop_first(), i - 1, n, name);
    }
}

proof fn lemma_get_child_push(children: Seq<XmlNode>, n: XmlNode, name: Seq<char>)
    ensures
        spec_get_child(children.push(n), name) == (match spec_get_child(children, name) {
            Some(e) => Some(e),
            None => if node_is_named(n, name) {
                match n {
                    XmlNode::Element(e) => Some(e),
                    XmlNode::Text(_) => None,
                }
            } else {
                None
            },
        }),
    decreases children.len(),
{
    if children.len() == 0 {
        reveal_with_fuel(spec_get_child, 3);
        assert(children.push(n)[0] == n);
        assert(children.push(n).drop_first() =~= Seq::<XmlNode>::empty());
    } else {
        assert(children.push(n).drop_first() =~= children.drop_first().push(n));
        lemma_get_child_push(children.drop_first(), n, name);
    }
}

/// Finds the position of the first element child with the given name.
fn find_child_index(e: &XmlElement, name: &str) -> (r: Option<usize>)
    ensures
        match r {
            Some(i) => i < e.children@.len() && node_is_named(e.children@[i as int], name@) && (
            forall|j: int| 0 <= j < i ==> !node_is_named(#[trigger] e.children@[j], name@)),
            None => forall|j: int|
                0 <= j < e.children@.len() ==> !node_is_named(#[trigger] e.children@[j], name@),
        },
{
    let mut i: usize = 0;
    while i < e.children.len()
        invariant
            i <= e.children@.len(),
            forall|j: int| 0 <= j < i ==> !node_is_named(#[trigger] e.children@[j], name@),
        decreases e.children@.len() - i,
    {
        match &e.children[i] {
            XmlNode::Element(c) => {
                if str_eq(c.name.as_str(), name) {
                    return Some(i);
                }
            },
            XmlNode::Text(_) => {},
        }
        assert(!node_is_named(e.children@[i as int], name@));
        i = i + 1;
    }
    None
}

/// Appends a mapping from `alt` to `og` to the configuration,
/// creating the `Mappings` section when it is absent.  Everything
/// else the configuration carries stays as it was; writing the new
/// tree back to disk is the caller's business.
pub fn add_mappings(doc: XmlElement, alt: String, og: String) -> (r: XmlElement)
    ensures
        spec_mappings(r) == spec_mappings(doc).push((alt@, og@)),
        spec_bot_token(r) == spec_bot_token(doc),
        spec_main_channel(r) == spec_main_channel(doc),
        r.name@ == doc.name@,
{
    let ghost doc0 = doc;
    let mut doc = doc;
    let mut key = String::new();
    key.append("alternative");
    let mut attrs: Vec<(String, String)> = Vec::new();
    let ghost alt_v = alt@;
    let ghost og_v = og@;
    attrs.push((key, alt));
    let mut mchildren: Vec<XmlNode> = Vec::new();
    mchildren.push(XmlNode::Text(og));
    let mut mname = String::new();
    mname.append("Mapping");
    let mapping_elem = XmlElement { name: mname, attributes: attrs, children: mchildren };
    let ghost mapping_elem_g = mapping_elem;
    let node = XmlNode::Element(mapping_elem);
    proof {
        reveal_strlit("Mapping");
        reveal_strlit("Mappings");
        reveal_strlit("BotToken");
        reveal_strlit("MainChannel");
        reveal_with_fuel(spec_attr, 2);
        reveal_with_fuel(spec_texts, 3);
        reveal_with_fuel(concat_all, 3);
        assert(mapping_elem_g.name@ =~= "Mapping"@);
        assert(mapping_elem_g.attributes@[0].0@ =~= "alternative"@);
        assert(spec_attr(mapping_elem_g.attributes@, "alternative"@) == Some(alt_v)) by {
            assert(mapping_elem_g.attributes@.drop_first() =~= Seq::<(String, String)>::empty());
        }
        assert(spec_texts(mapping_elem_g.children@) =~= seq![og_v]) by {
            assert(mapping_elem_g.children@.drop_first() =~= Seq::<XmlNode>::empty());
        }
        assert(concat_all(seq![og_v]) =~= og_v) by {
            assert(seq![og_v].drop_first() =~= Seq::<Seq<char>>::empty());
        }
        assert(spec_mapping_of(node) == Some((alt_v, og_v)));
        assert(!node_is_named(node, "Mappings"@));
        assert(!node_is_named(node, "BotToken"@));
        assert(!node_is_named(node, "MainChannel"@));
        assert("Mappings"@ != "BotToken"@) by {
            assert("Mappings"@[0] == 'M');
            assert("BotToken"@[0] == 'B');
        }
        assert("Mappings"@ != "MainChannel"@) by {
            assert("Mappings"@[1] == 'a');
            assert("MainChannel"@[1] == 'a');
            assert("Mappings"@[2] == 'p');
            assert("MainChannel"@[2] == 'i');
        }
    }
    match find_child_index(&doc, "Mappings") {
        Some(i) => {
            let old_node = doc.children.remove(i);
            match old_node {
                XmlNode::Element(mut m) => {
                    let ghost m0 = m;
                    m.children.push(node);
                    let ghost m1 = m;
                    proof {
                        lemma_mapping_list_push(m0.children@, node);
                    }
                    doc.children.insert(i, XmlNode::Element(m));
                    proof {
                        let c0 = doc0.children@;
                        let c1 = doc.children@;
                        assert(c1 =~= c0.update(i as int, XmlNode::Element(m1)));
                        assert(node_is_named(c1[i as int], "Mappings"@));
                        assert forall|j: int| 0 <= j < i implies !node_is_named(
                            #[trigger] c1[j],
                            "Mappings"@,
                        ) by {
                            assert(c1[j] == c0[j]);
                        }
                        lemma_get_child_at(c1, "Mappings"@, i as int);
                        lemma_get_child_at(c0, "Mappings"@, i as int);
                        lemma_get_child_update_other(c0, i as int, XmlNode::Element(m1), "BotToken"@);
                        lemma_get_child_update_other(
                            c0,
                            i as int,
                            XmlNode::Element(m1),
                            "MainChannel"@,
                        );
                        assert(spec_mappings(doc) =~= spec_mappings(doc0).push((alt_v, og_v)));
                    }
                    doc
                },
                XmlNode::Text(_) => {
                    proof {
                        assert(false);
                    }
                    doc
                },
            }
        },
        None => {
            let mut sname = String::new();
            sname.append("Mappings");
            let mut schildren: Vec<XmlNode> = Vec::new();
            schildren.push(node);
            let section = XmlElement { name: sname, attributes: Vec::new(), children: schildren };
            let ghost section_g = section;
            doc.children.push(XmlNode::Element(section));
            proof {
                reveal_with_fuel(spec_mapping_list, 3);
                let c0 = doc0.children@;
                let c1 = doc.children@;
                assert(c1 =~= c0.push(XmlNode::Element(section_g)));
                assert(section_g.name@ =~= "Mappings"@);
                lemma_get_child_none(c0, "Mappings"@);
                lemma_get_child_push(c0, XmlNode::Element(section_g), "Mappings"@);
                lemma_get_child_push(c0, XmlNode::Element(section_g), "BotToken"@);
                lemma_get_child_push(c0, XmlNode::Element(section_g), "MainChannel"@);
                assert(spec_get_child(c1, "Mappings"@) == Some(section_g));
                assert(section_g.children@[0] == node);
                assert(section_g.children@.drop_first() =~= Seq::<XmlNode>::empty());
                assert(spec_mapping_list(section_g.children@) =~= seq![(alt_v, og_v)]);
                assert(spec_mappings(doc) =~= spec_mappings(doc0).push((alt_v, og_v)));
            }
            doc
        },
    }
}

} // verus!
