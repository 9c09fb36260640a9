//! The source context: the rules by which the names of a document are read,
//! gathered from the `@context` declarations met on the way down.

use crate::assoc::lookup;
use crate::table::Table;
use crate::text::{
    absolute_iri, curie_prefix, find_char, first_index, is_absolute_iri, is_curie_prefix,
    is_keyword, join, keyword, lemma_first_index, str_eq,
};
use crate::value::{one_or_many, Json, Object, OneOrMany, Value};
use vstd::prelude::*;

verus! {

/// The model of a context.
pub struct ContextView {
    /// The default namespace, for names that are neither keyword, CURIE nor
    /// IRI.
    pub ns: Option<Seq<char>>,
    /// The default language; empty when none is set.
    pub lang: Seq<char>,
    /// CURIE prefixes and their base IRIs.
    pub prefixes: Map<Seq<char>, Seq<char>>,
    /// Aliases, by the property name as written.
    pub aliases: Map<Seq<char>, Seq<char>>,
    /// Container mappings, by the property name as written.
    pub container: Map<Seq<char>, Seq<char>>,
}

/// The context that holds no rule at all.
pub open spec fn empty_context() -> ContextView {
    ContextView {
        ns: None,
        lang: Seq::empty(),
        prefixes: Map::empty(),
        aliases: Map::empty(),
        container: Map::empty(),
    }
}

/// The context after one entry of a declaration was read.
pub open spec fn merge_entry(ctx: ContextView, key: Seq<char>, value: Json) -> ContextView {
    if keyword(key) {
        if key == "@vocab"@ {
            match value {
                Json::String(s) => if absolute_iri(s) {
                    ContextView { ns: Some(s), ..ctx }
                } else {
                    ctx
                },
                Json::Null => ContextView { ns: None, ..ctx },
                _ => ctx,
            }
        } else if key == "@language"@ {
            match value {
                Json::String(s) => ContextView { lang: s, ..ctx },
                Json::Null => ContextView { lang: Seq::empty(), ..ctx },
                _ => ctx,
            }
        } else {
            ctx
        }
    } else {
        match value {
            Json::String(s) => if curie_prefix(key) && absolute_iri(s) {
                ContextView { prefixes: ctx.prefixes.insert(key, s), ..ctx }
            } else {
                ctx
            },
            Json::Object(definition) => ContextView {
                aliases: match lookup(definition, "@id"@) {
                    Some(Json::String(id)) => if keyword(id) {
                        ctx.aliases
                    } else {
                        ctx.aliases.insert(key, id)
                    },
                    _ => ctx.aliases,
                },
                container: match lookup(definition, "@container"@) {
                    Some(Json::String(mapping)) => ctx.container.insert(key, mapping),
                    _ => ctx.container,
                },
                ..ctx
            },
            Json::Null => ContextView {
                prefixes: ctx.prefixes.remove(key),
                aliases: ctx.aliases.remove(key),
                container: ctx.container.remove(key),
                ..ctx
            },
            _ => ctx,
        }
    }
}

/// The context after the entries of a declaration were read, first to last.
pub open spec fn merge_object(ctx: ContextView, entries: Seq<(Seq<char>, Json)>) -> ContextView
    decreases entries.len(),
{
    if entries.len() == 0 {
        ctx
    } else {
        merge_entry(merge_object(ctx, entries.drop_last()), entries.last().0, entries.last().1)
    }
}

/// The context after one item of a declaration was read: `null` clears it,
/// an object is merged into it, anything else leaves it as it is.
pub open spec fn merge_item(ctx: ContextView, item: Json) -> ContextView {
    match item {
        Json::Null => empty_context(),
        Json::Object(entries) => merge_object(ctx, entries),
        _ => ctx,
    }
}

/// The context after the items of a declaration were read, first to last.
pub open spec fn merge_items(ctx: ContextView, items: Seq<Json>) -> ContextView
    decreases items.len(),
{
    if items.len() == 0 {
        ctx
    } else {
        merge_item(merge_items(ctx, items.drop_last()), items.last())
    }
}

/// The context after a declaration was read: a single item, or the items of
/// an array in turn.
pub open spec fn merge_value(ctx: ContextView, declaration: Json) -> ContextView {
    merge_items(ctx, one_or_many(declaration))
}

/// The absolute IRI that `name` stands for in `ctx`, if it stands for one.
///
/// A keyword stands for none. A name with a `:` is a CURIE where what is
/// before its first `:` is a prefix of the context, and is taken as absolute
/// otherwise. A name without `:` lies in the default namespace, if there is
/// one.
pub open spec fn expand_name(ctx: ContextView, name: Seq<char>) -> Option<Seq<char>> {
    let colon = first_index(name, ':');
    if keyword(name) {
        None
    } else if colon < name.len() {
        let prefix = name.take(colon);
        let suffix = name.skip(colon + 1);
        if ctx.prefixes.contains_key(prefix) {
            Some(ctx.prefixes[prefix] + suffix)
        } else {
            Some(name)
        }
    } else {
        match ctx.ns {
            Some(base) => Some(base + name),
            None => None,
        }
    }
}

/// A keyword never expands, whatever the context holds.
pub proof fn lemma_keyword_does_not_expand(ctx: ContextView, name: Seq<char>)
    requires
        keyword(name),
    ensures
        expand_name(ctx, name) is None,
{
}

/// A name without `:` that is no keyword lies in the default namespace: it
/// expands to the namespace followed by the name, and to nothing where the
/// context has no default namespace.
pub proof fn lemma_expand_term(ctx: ContextView, name: Seq<char>)
    requires
        !keyword(name),
        !name.contains(':'),
    ensures
        expand_name(ctx, name) == match ctx.ns {
            Some(base) => Some(base + name),
            None => None,
        },
{
    lemma_first_index(name, ':');
}

/// A name with a `:` that is no keyword always expands: as a CURIE where
/// what stands before its first `:` is a prefix of the context, and to
/// itself otherwise.
pub proof fn lemma_expand_with_colon(ctx: ContextView, name: Seq<char>)
    requires
        !keyword(name),
        name.contains(':'),
    ensures
        expand_name(ctx, name) is Some,
        !ctx.prefixes.contains_key(name.take(first_index(name, ':'))) ==> expand_name(ctx, name)
            == Some(name),
{
    lemma_first_index(name, ':');
}

/// Merging `null` clears a context: what is left is the empty context,
/// whatever the context held.
pub proof fn lemma_null_clears(ctx: ContextView)
    ensures
        merge_value(ctx, Json::Null) == empty_context(),
{
    let items = one_or_many(Json::Null);
    assert(items.len() == 1);
    assert(items.last() == Json::Null);
}

/// A declaration whose last item is `null` leaves the empty context,
/// whatever stands before the `null`.
pub proof fn lemma_null_clears_what_came_before(ctx: ContextView, items: Seq<Json>)
    ensures
        merge_value(ctx, Json::Array(items.push(Json::Null))) == empty_context(),
{
    assert(items.push(Json::Null).last() == Json::Null);
}

/// Structure holding the current context to interpret a document with.
#[derive(Debug)]
pub struct Context {
    /// The default namespace, for properties that are not a keyword, CURIE,
    /// or IRI.
    pub ns: Option<String>,
    /// The default language for internationalised properties that don't
    /// specify one. The empty string when not defined.
    pub lang: String,
    /// Map of defined CURIE prefixes to their base IRIs.
    pub prefixes: Table,
    /// Map of defined aliases by their literal property names.
    pub aliases: Table,
    /// Map of defined container mappings by their literal property names.
    pub container: Table,
}

impl View for Context {
    type V = ContextView;

    open spec fn view(&self) -> ContextView {
        ContextView {
            ns: match self.ns {
                Some(s) => Some(s@),
                None => None,
            },
            lang: self.lang@,
            prefixes: self.prefixes@,
            aliases: self.aliases@,
            container: self.container@,
        }
    }
}

impl Context {
    /// The empty context.
    pub fn new() -> (r: Context)
        ensures
            r@ == empty_context(),
    {
        Context {
            ns: None,
            lang: String::new(),
            prefixes: Table::new(),
            aliases: Table::new(),
            container: Table::new(),
        }
    }

    /// The context that a declaration gives when it is read into the empty
    /// context.
    pub fn from_value(declaration: &Value) -> (r: Context)
        ensures
            r@ == merge_value(empty_context(), declaration@),
    {
        let mut context = Context::new();
        context.merge_value(declaration);
        context
    }

    /// The context that the entries of a declaration give when they are read
    /// into the empty context.
    pub fn from_object(declaration: &Object) -> (r: Context)
        ensures
            r@ == merge_object(empty_context(), declaration@),
    {
        let mut context = Context::new();
        context.merge_object(declaration);
        context
    }

    /// Merge an `@context` value into this structure.
    pub fn merge_value(&mut self, value: &Value)
        ensures
            final(self)@ == merge_value(old(self)@, value@),
    {
        let ghost items = one_or_many(value@);
        let ghost mut done: int = 0;
        let mut walk = OneOrMany::from(value);
        loop
            invariant
                0 <= done <= items.len(),
                walk.remaining() == items.skip(done),
                self@ == merge_items(old(self)@, items.take(done)),
            ensures
                self@ == merge_items(old(self)@, items),
            decreases items.len() - done,
        {
            match walk.next() {
                Some(item) => {
                    proof {
                        assert(items.take(done + 1).drop_last() =~= items.take(done));
                        assert(walk.remaining() =~= items.skip(done + 1));
                        done = done + 1;
                    }
                    match item {
                        Value::Null => {
                            *self = Context::new();
                        },
                        Value::Object(object) => {
                            self.merge_object(object);
                        },
                        _ => {},
                    }
                },
                None => {
                    assert(items.take(done) =~= items);
                    break ;
                },
            }
        }
    }

    /// Merge an `@context` object into this structure.
    pub fn merge_object(&mut self, object: &Object)
        ensures
            final(self)@ == merge_object(old(self)@, object@),
    {
        let n = object.len();
        let mut i: usize = 0;
        while i < n
            invariant
                n == object@.len(),
                i <= n,
                self@ == merge_object(old(self)@, object@.take(i as int)),
            decreases n - i,
        {
            let (key, value) = object.entry(i);
            assert(object@.take(i + 1).drop_last() =~= object@.take(i as int));
            self.merge_entry(key.as_str(), value);
            i += 1;
        }
        assert(object@.take(n as int) =~= object@);
    }

    /// Merge one entry of an `@context` object into this structure.
    pub fn merge_entry(&mut self, key: &str, value: &Value)
        ensures
            final(self)@ == merge_entry(old(self)@, key@, value@),
    {
        if is_keyword(key) {
            if str_eq(key, "@vocab") {
                // Set the default namespace. May be null to clear it.
                match value {
                    Value::String(ns) => {
                        if is_absolute_iri(ns.as_str()) {
                            self.ns = Some(ns.clone());
                        }
                    },
                    Value::Null => {
                        self.ns = None;
                    },
                    _ => {},
                }
            } else if str_eq(key, "@language") {
                // Set the default language. May be null to clear it.
                match value {
                    Value::String(lang) => {
                        self.lang = lang.clone();
                    },
                    Value::Null => {
                        self.lang = String::new();
                    },
                    _ => {},
                }
            }
        } else {
            match value {
                Value::String(base) => {
                    // Define a namespace.
                    if is_curie_prefix(key) && is_absolute_iri(base.as_str()) {
                        self.prefixes.insert(key.to_owned(), base.clone());
                    }
                },
                Value::Object(definition) => {
                    // Look for an alias.
                    match definition.get("@id") {
                        Some(Value::String(id)) => {
                            if !is_keyword(id.as_str()) {
                                self.aliases.insert(key.to_owned(), id.clone());
                            }
                        },
                        _ => {},
                    }
                    // Look for a container mapping.
                    match definition.get("@container") {
                        Some(Value::String(mapping)) => {
                            self.container.insert(key.to_owned(), mapping.clone());
                        },
                        _ => {},
                    }
                },
                Value::Null => {
                    // A null value is used to clear whatever was defined.
                    self.prefixes.remove(key);
                    self.aliases.remove(key);
                    self.container.remove(key);
                },
                _ => {},
            }
        }
    }

    /// Expand a name according to this context.
    ///
    /// A name may be an absolute IRI, a CURIE within a defined namespace, or
    /// a name in the default namespace, otherwise `None` is returned (and the
    /// property or value should be dropped).
    pub fn expand_name(&self, name: &str) -> (r: Option<String>)
        ensures
            match r {
                Some(iri) => expand_name(self@, name@) == Some(iri@),
                None => expand_name(self@, name@) is None,
            },
            keyword(name@) ==> r is None,
    {
        if is_keyword(name) {
            return None;
        }
        match find_char(name, ':') {
            Some(colon) => {
                let end = name.unicode_len();
                let prefix = name.substring_char(0, colon);
                let suffix = name.substring_char(colon + 1, end);
                match self.prefixes.get(prefix) {
                    // A CURIE within a defined namespace.
                    Some(base) => Some(join(base.as_str(), suffix)),
                    // An absolute IRI in some other scheme.
                    None => Some(name.to_owned()),
                }
            },
            None => match &self.ns {
                // A term in the default namespace.
                Some(base) => Some(join(base.as_str(), name)),
                None => None,
            },
        }
    }
}

impl Clone for Context {
    fn clone(&self) -> (r: Self)
        ensures
            r@ == self@,
    {
        Context {
            ns: match &self.ns {
                Some(ns) => Some(ns.clone()),
                None => None,
            },
            lang: self.lang.clone(),
            prefixes: self.prefixes.clone(),
            aliases: self.aliases.clone(),
            container: self.container.clone(),
        }
    }
}

impl Default for Context {
    fn default() -> (r: Context)
        ensures
            r@ == empty_context(),
    {
        Context::new()
    }
}

} // verus!
