//! The document processor: walks a value, reads the names of each object in
//! the context that holds at that object, and rewrites them for the target
//! context.

use crate::assoc::{
    distinct_keys, keys, lemma_lookup_after_remove, lemma_put, lookup, put,
};
use crate::context::{expand_name, merge_value, Context, ContextView};
use crate::target::{compact_iri, TargetContext};
use crate::text::{
    absolute_iri, is_absolute_iri, is_keyword, keyword, lemma_first_index, str_eq,
};
use crate::value::{one_or_many, Json, Object, OneOrMany, Value};
use vstd::prelude::*;

verus! {

/// The name under which `name` appears in the output: expanded in the source
/// context, then compacted by the target rules. `None` where `name` does not
/// expand.
pub open spec fn rename(
    ctx: ContextView,
    rules: Seq<(Seq<char>, Seq<char>)>,
    name: Seq<char>,
) -> Option<Seq<char>> {
    match expand_name(ctx, name) {
        Some(iri) => Some(compact_iri(rules, iri)),
        None => None,
    }
}

/// The name that is expanded for the property `key`: its alias where the
/// context has one for it, else `key` itself.
pub open spec fn resolved_name(ctx: ContextView, key: Seq<char>) -> Seq<char> {
    if ctx.aliases.contains_key(key) {
        ctx.aliases[key]
    } else {
        key
    }
}

/// The types that the items of an `@type` value give, in order: each string
/// that expands is renamed, every other item is left out.
pub open spec fn process_types(
    ctx: ContextView,
    rules: Seq<(Seq<char>, Seq<char>)>,
    items: Seq<Json>,
) -> Seq<Json>
    decreases items.len(),
{
    if items.len() == 0 {
        Seq::empty()
    } else {
        let front = process_types(ctx, rules, items.drop_last());
        match items.last() {
            Json::String(name) => match rename(ctx, rules, name) {
                Some(out) => front.push(Json::String(out)),
                None => front,
            },
            _ => front,
        }
    }
}

/// The entries of `entries` whose value is a string, in order.
pub open spec fn string_entries(entries: Seq<(Seq<char>, Json)>) -> Seq<(Seq<char>, Json)>
    decreases entries.len(),
{
    if entries.len() == 0 {
        entries
    } else {
        let front = string_entries(entries.drop_last());
        if entries.last().1 is String {
            front.push(entries.last())
        } else {
            front
        }
    }
}

/// The language map that the value of an internationalised property gives:
/// a string becomes the one entry for the default language `lang`, an object
/// keeps its string entries, anything else gives nothing.
pub open spec fn language_map(lang: Seq<char>, value: Json) -> Option<Json> {
    match value {
        Json::String(_) => Some(Json::Object(seq![(lang, value)])),
        Json::Object(entries) => Some(Json::Object(string_entries(entries))),
        _ => None,
    }
}

/// The context that holds inside an object: the context around it, extended
/// by the object's own `@context` where it has one.
pub open spec fn local_context(ctx: ContextView, entries: Seq<(Seq<char>, Json)>) -> ContextView {
    match lookup(entries, "@context"@) {
        Some(declaration) => merge_value(ctx, declaration),
        None => ctx,
    }
}

/// The output for a value in context `ctx` under the target `rules`: the
/// items of an array are processed in place, an object is processed in its
/// local context, a scalar stays as it is.
pub open spec fn process_value(
    ctx: ContextView,
    rules: Seq<(Seq<char>, Seq<char>)>,
    value: Json,
) -> Json
    decreases value, 0nat,
{
    match value {
        Json::Array(items) => Json::Array(
            Seq::new(
                items.len(),
                |i: int|
                    if 0 <= i < items.len() {
                        process_value(ctx, rules, items[i])
                    } else {
                        Json::Null
                    },
            ),
        ),
        Json::Object(entries) => Json::Object(
            process_entries(local_context(ctx, entries), rules, entries, entries.len()),
        ),
        _ => value,
    }
}

/// The output entry for one property of an object, or `None` where the
/// property is dropped.
///
/// Of the keywords, `@id` is kept where it is an absolute IRI, `@type` where
/// at least one of its items gives a type, and no other. Any other property
/// is named by its alias, if it has one, and dropped where that name does not
/// expand; its value is a language map where the property is mapped to the
/// container `@language`, and is processed as a value otherwise.
pub open spec fn process_property(
    ctx: ContextView,
    rules: Seq<(Seq<char>, Seq<char>)>,
    key: Seq<char>,
    value: Json,
) -> Option<(Seq<char>, Json)>
    decreases value, 1nat,
{
    if keyword(key) {
        if key == "@id"@ {
            match value {
                Json::String(id) => if absolute_iri(id) {
                    Some((key, value))
                } else {
                    None
                },
                _ => None,
            }
        } else if key == "@type"@ {
            let types = process_types(ctx, rules, one_or_many(value));
            if types.len() > 0 {
                Some((key, Json::Array(types)))
            } else {
                None
            }
        } else {
            None
        }
    } else {
        match rename(ctx, rules, resolved_name(ctx, key)) {
            Some(out) => if ctx.container.contains_key(key) && ctx.container[key]
                == "@language"@ {
                match language_map(ctx.lang, value) {
                    Some(map) => Some((out, map)),
                    None => None,
                }
            } else {
                Some((out, process_value(ctx, rules, value)))
            },
            None => None,
        }
    }
}

/// The output entries after the first `n` properties of `entries` were
/// processed in context `ctx`: each property that is not dropped is written
/// under its output key, over whatever an earlier property wrote there.
pub open spec fn process_entries(
    ctx: ContextView,
    rules: Seq<(Seq<char>, Seq<char>)>,
    entries: Seq<(Seq<char>, Json)>,
    n: nat,
) -> Seq<(Seq<char>, Json)>
    decreases entries, n,
{
    if n == 0 || n > entries.len() {
        Seq::empty()
    } else {
        let front = process_entries(ctx, rules, entries, (n - 1) as nat);
        match process_property(ctx, rules, entries[n - 1].0, entries[n - 1].1) {
            Some((key, value)) => put(front, key, value),
            None => front,
        }
    }
}

/// The output for an object in context `ctx` under the target `rules`: all
/// its properties, processed in the object's local context.
pub open spec fn process_object(
    ctx: ContextView,
    rules: Seq<(Seq<char>, Seq<char>)>,
    entries: Seq<(Seq<char>, Json)>,
) -> Seq<(Seq<char>, Json)> {
    process_entries(local_context(ctx, entries), rules, entries, entries.len())
}

/// A string entry of a part of `entries` has a key of `entries`.
proof fn lemma_string_entries_keys(entries: Seq<(Seq<char>, Json)>, key: Seq<char>)
    requires
        keys(string_entries(entries)).contains(key),
    ensures
        keys(entries).contains(key),
    decreases entries.len(),
{
    let kept = string_entries(entries);
    let i = choose|i: int| 0 <= i < kept.len() && keys(kept)[i] == key;
    let front = string_entries(entries.drop_last());
    if i < front.len() {
        assert(keys(front)[i] == key);
        lemma_string_entries_keys(entries.drop_last(), key);
        let j = choose|j: int|
            0 <= j < entries.drop_last().len() && keys(entries.drop_last())[j] == key;
        assert(keys(entries)[j] == key);
    } else {
        assert(keys(entries)[entries.len() - 1] == key);
    }
}

/// An array is processed item by item: the output has an item for each
/// item of the input, in order, and each is the output of that item alone in
/// the context around the array. What one item declares reaches no other.
pub proof fn lemma_array_is_processed_item_by_item(
    ctx: ContextView,
    rules: Seq<(Seq<char>, Seq<char>)>,
    items: Seq<Json>,
)
    ensures
        process_value(ctx, rules, Json::Array(items)) is Array,
        process_value(ctx, rules, Json::Array(items))->Array_0.len() == items.len(),
        forall|i: int|
            0 <= i < items.len() ==> process_value(ctx, rules, Json::Array(items))->Array_0[i]
                == process_value(ctx, rules, #[trigger] items[i]),
{
}

/// A value that is neither array nor object is its own output.
pub proof fn lemma_scalar_is_unchanged(
    ctx: ContextView,
    rules: Seq<(Seq<char>, Seq<char>)>,
    value: Json,
)
    requires
        !(value is Array),
        !(value is Object),
    ensures
        process_value(ctx, rules, value) == value,
{
}

/// An `@type` that is a single string gives an array of exactly one type
/// where the string expands, and no `@type` at all where it does not.
pub proof fn lemma_type_of_one_name(
    ctx: ContextView,
    rules: Seq<(Seq<char>, Seq<char>)>,
    name: Seq<char>,
)
    ensures
        process_property(ctx, rules, "@type"@, Json::String(name)) == match rename(
            ctx,
            rules,
            name,
        ) {
            Some(out) => Some(("@type"@, Json::Array(seq![Json::String(out)]))),
            None => None,
        },
{
    reveal_strlit("@type");
    reveal_strlit("@id");
    assert("@type"@ != "@id"@) by {
        assert("@type"@.len() != "@id"@.len());
    }
    let items = one_or_many(Json::String(name));
    assert(items.len() == 1);
    assert(items.last() == Json::String(name));
    assert(process_types(ctx, rules, items.drop_last()) =~= Seq::<Json>::empty());
    match rename(ctx, rules, name) {
        Some(out) => {
            assert(process_types(ctx, rules, items) =~= seq![Json::String(out)]);
        },
        None => {
            assert(process_types(ctx, rules, items) =~= Seq::<Json>::empty());
        },
    }
}

/// A property that is no keyword and whose name does not expand is dropped,
/// whatever its value is.
pub proof fn lemma_unexpanded_property_is_dropped(
    ctx: ContextView,
    rules: Seq<(Seq<char>, Seq<char>)>,
    key: Seq<char>,
    value: Json,
)
    requires
        !keyword(key),
        expand_name(ctx, resolved_name(ctx, key)) is None,
    ensures
        process_property(ctx, rules, key, value) is None,
{
}

/// The output of the first `n` properties depends on those properties only.
proof fn lemma_entries_of_equal_fronts(
    ctx: ContextView,
    rules: Seq<(Seq<char>, Seq<char>)>,
    a: Seq<(Seq<char>, Json)>,
    b: Seq<(Seq<char>, Json)>,
    n: nat,
)
    requires
        n <= a.len(),
        n <= b.len(),
        forall|j: int| 0 <= j < n ==> a[j] == b[j],
    ensures
        process_entries(ctx, rules, a, n) == process_entries(ctx, rules, b, n),
    decreases n,
{
    if n > 0 {
        lemma_entries_of_equal_fronts(ctx, rules, a, b, (n - 1) as nat);
    }
}

/// A dropped property at position `i` leaves the output of the properties
/// up to `n` what it is without that property.
proof fn lemma_entries_without_dropped(
    ctx: ContextView,
    rules: Seq<(Seq<char>, Seq<char>)>,
    entries: Seq<(Seq<char>, Json)>,
    i: int,
    n: nat,
)
    requires
        0 <= i < n <= entries.len(),
        process_property(ctx, rules, entries[i].0, entries[i].1) is None,
    ensures
        process_entries(ctx, rules, entries, n) == process_entries(
            ctx,
            rules,
            entries.remove(i),
            (n - 1) as nat,
        ),
    decreases n,
{
    let rest = entries.remove(i);
    if n == i + 1 {
        lemma_entries_of_equal_fronts(ctx, rules, entries, rest, i as nat);
    } else {
        lemma_entries_without_dropped(ctx, rules, entries, i, (n - 1) as nat);
        assert(rest[n - 2] == entries[n - 1]);
    }
}

/// A property that is no keyword and whose name does not expand in the
/// object's local context leaves no trace: the output is that of the object
/// without the property.
pub proof fn lemma_unexpanded_property_leaves_no_trace(
    ctx: ContextView,
    rules: Seq<(Seq<char>, Seq<char>)>,
    entries: Seq<(Seq<char>, Json)>,
    i: int,
)
    requires
        0 <= i < entries.len(),
        !keyword(entries[i].0),
        expand_name(
            local_context(ctx, entries),
            resolved_name(local_context(ctx, entries), entries[i].0),
        ) is None,
    ensures
        process_object(ctx, rules, entries) == process_object(ctx, rules, entries.remove(i)),
{
    reveal_strlit("@context");
    assert(keyword("@context"@));
    lemma_lookup_after_remove(entries, i, "@context"@);
    let local = local_context(ctx, entries);
    lemma_unexpanded_property_is_dropped(local, rules, entries[i].0, entries[i].1);
    lemma_entries_without_dropped(local, rules, entries, i, entries.len());
}

/// No key stands twice in the output of an object: where two properties
/// come to the same output key, the later one has replaced the earlier.
pub proof fn lemma_output_keys_are_distinct(
    ctx: ContextView,
    rules: Seq<(Seq<char>, Seq<char>)>,
    entries: Seq<(Seq<char>, Json)>,
    n: nat,
)
    ensures
        distinct_keys(process_entries(ctx, rules, entries, n)),
    decreases n,
{
    if n == 0 || n > entries.len() {
    } else {
        lemma_output_keys_are_distinct(ctx, rules, entries, (n - 1) as nat);
        let front = process_entries(ctx, rules, entries, (n - 1) as nat);
        match process_property(ctx, rules, entries[n - 1].0, entries[n - 1].1) {
            Some((key, value)) => {
                lemma_put(front, key, value);
            },
            None => {},
        }
    }
}

/// A document processor.
///
/// This structure holds configuration for processing documents. The defaults
/// are fine if the output document should contain only absolute IRIs, but
/// usually you want to set some namespaces for the output document in the
/// `TargetContext` contained within.
#[derive(Debug)]
pub struct Processor {
    /// External context added to the document. Defaults to an empty context,
    /// so only inline contexts in the document itself are used.
    pub context: Context,
    /// Target context to reword the document to. Defaults to an empty
    /// context, so the result will contain only absolute IRIs for all
    /// properties and types.
    pub target: TargetContext,
}

impl Processor {
    /// The processor with an empty context and no target rules.
    pub fn new() -> (r: Processor)
        ensures
            r.context@ == crate::context::empty_context(),
            r.target@ == Seq::<(Seq<char>, Seq<char>)>::empty(),
    {
        Processor { context: Context::new(), target: TargetContext::new() }
    }

    /// A short-hand for adding a rule to the contained `TargetContext`.
    pub fn add_rule(&mut self, prefix: &str, base: &str) -> (r: &mut Self)
        ensures
            r.target@ == old(self).target@.push((prefix@, base@)),
            r.context == old(self).context,
            *final(self) == *final(r),
    {
        self.target.add_rule(prefix, base);
        self
    }

    /// Process a value, using the configuration in this struct.
    pub fn process_value(&self, value: &Value) -> (r: Value)
        ensures
            r@ == process_value(self.context@, self.target@, value@),
    {
        self.process_value_inner(value, &self.context)
    }

    /// Process an object, using the configuration in this struct.
    pub fn process_object(&self, object: &Object) -> (r: Object)
        ensures
            r@ == process_object(self.context@, self.target@, object@),
    {
        self.process_object_inner(object, &self.context)
    }

    /// Process a value with a local context.
    #[verifier::loop_isolation(false)]
    fn process_value_inner(&self, value: &Value, context: &Context) -> (r: Value)
        ensures
            r@ == process_value(context@, self.target@, value@),
        decreases value, 0nat,
    {
        match value {
            Value::Array(items) => {
                let mut output: Vec<Value> = Vec::new();
                let mut i: usize = 0;
                while i < items.len()
                    invariant
                        i <= items@.len(),
                        output@.len() == i,
                        forall|j: int|
                            0 <= j < i ==> (#[trigger] output@[j])@ == process_value(
                                context@,
                                self.target@,
                                items@[j]@,
                            ),
                    decreases items@.len() - i,
                {
                    let item = self.process_value_inner(&items[i], context);
                    output.push(item);
                    i += 1;
                }
                let r = Value::Array(output);
                assert(r@->Array_0 =~= process_value(
                    context@,
                    self.target@,
                    value@,
                )->Array_0);
                r
            },
            Value::Object(object) => Value::Object(self.process_object_inner(object, context)),
            scalar => scalar.clone(),
        }
    }

    /// Process an object with a local context.
    #[verifier::loop_isolation(false)]
    fn process_object_inner(&self, object: &Object, context: &Context) -> (r: Object)
        ensures
            r@ == process_object(context@, self.target@, object@),
        decreases object, 0nat,
    {
        // Extend the active context with the local context, if present.
        let local = match object.get("@context") {
            Some(declaration) => {
                let mut local = context.clone();
                local.merge_value(declaration);
                Some(local)
            },
            None => None,
        };
        let context = match &local {
            Some(local) => local,
            None => context,
        };

        let n = object.len();
        let mut result = Object::new();
        let mut i: usize = 0;
        while i < n
            invariant
                i <= n,
                result@ == process_entries(context@, self.target@, object@, i as nat),
            decreases n - i,
        {
            let (key, value) = object.entry(i);
            match self.process_property(context, key, value) {
                Some((name, output)) => {
                    result.insert(name, output);
                },
                None => {},
            }
            i += 1;
        }
        result
    }

    /// Process one property of an object in the object's local context: the
    /// entry to write to the output, or `None` where the property is dropped.
    fn process_property(&self, context: &Context, key: &String, value: &Value) -> (r: Option<
        (String, Value),
    >)
        ensures
            match r {
                Some((name, output)) => process_property(context@, self.target@, key@, value@)
                    == Some((name@, output@)),
                None => process_property(context@, self.target@, key@, value@) is None,
            },
        decreases value, 1nat,
    {
        if is_keyword(key.as_str()) {
            // A keyword property.
            if str_eq(key.as_str(), "@id") {
                // Document ID, must be an absolute IRI.
                match value {
                    Value::String(id) => {
                        if is_absolute_iri(id.as_str()) {
                            Some((key.clone(), Value::String(id.clone())))
                        } else {
                            None
                        }
                    },
                    _ => None,
                }
            } else if str_eq(key.as_str(), "@type") {
                // Document type, a string or array of strings, each of which
                // expands to an absolute IRI.
                let types = self.process_types(context, value);
                if types.len() > 0 {
                    let output = Value::Array(types);
                    assert(output@->Array_0 =~= process_types(
                        context@,
                        self.target@,
                        one_or_many(value@),
                    ));
                    Some((key.clone(), output))
                } else {
                    None
                }
            } else {
                // Ignore `@context` (already processed) and other
                // unrecognized keywords.
                None
            }
        } else {
            // Look for an alias.
            let resolved = match context.aliases.get(key.as_str()) {
                Some(alias) => alias.as_str(),
                None => key.as_str(),
            };
            // Resolve in the current context.
            let name = match context.expand_name(resolved) {
                Some(iri) => self.target.compact_iri(iri.as_str()),
                None => {
                    return None;
                },
            };
            // Look for a container mapping of the property name as written.
            let internationalised = match context.container.get(key.as_str()) {
                Some(mapping) => str_eq(mapping.as_str(), "@language"),
                None => false,
            };
            if internationalised {
                match Self::language_map(context.lang.as_str(), value) {
                    Some(map) => Some((name, map)),
                    // Drop unrecognised values.
                    None => None,
                }
            } else {
                // No or unrecognized container mapping, which we treat as a
                // normal value. Expand it by recursing.
                Some((name, self.process_value_inner(value, context)))
            }
        }
    }

    /// The language map for the value of an internationalised property, with
    /// `lang` as the default language.
    pub fn language_map(lang: &str, value: &Value) -> (r: Option<Value>)
        ensures
            match r {
                Some(map) => language_map(lang@, value@) == Some(map@),
                None => language_map(lang@, value@) is None,
            },
    {
        match value {
            Value::String(_) => {
                // Normalise a string value to a language map with a single entry
                // for the default language.
                let mut map = Object::new();
                map.insert(lang.to_owned(), value.clone());
                assert(map@ =~= seq![(lang@, value@)]);
                Some(Value::Object(map))
            },
            Value::Object(object) => {
                // Filter non-string values from the object.
                let n = object.len();
                let mut map = Object::new();
                let mut i: usize = 0;
                while i < n
                    invariant
                        n == object@.len(),
                        i <= n,
                        distinct_keys(object@),
                        map@ == string_entries(object@.take(i as int)),
                    decreases n - i,
                {
                    let (key, entry) = object.entry(i);
                    let ghost front = object@.take(i as int);
                    assert(object@.take(i + 1).drop_last() =~= front);
                    if entry.is_string() {
                        proof {
                            if keys(map@).contains(key@) {
                                lemma_string_entries_keys(front, key@);
                                let j = choose|j: int| 0 <= j < front.len() && keys(front)[j] == key@;
                                assert(object@[j].0 != object@[i as int].0);
                            }
                            lemma_first_index(keys(map@), key@);
                        }
                        map.insert(key.clone(), entry.clone());
                    }
                    i += 1;
                }
                assert(object@.take(n as int) =~= object@);
                Some(Value::Object(map))
            },
            _ => None,
        }
    }

    /// The types that an `@type` value gives, each renamed for the output.
    fn process_types(&self, context: &Context, value: &Value) -> (r: Vec<Value>)
        ensures
            r@.len() == process_types(context@, self.target@, one_or_many(value@)).len(),
            forall|i: int|
                0 <= i < r@.len() ==> (#[trigger] r@[i])@ == process_types(
                    context@,
                    self.target@,
                    one_or_many(value@),
                )[i],
    {
        let ghost items = one_or_many(value@);
        let ghost mut done: int = 0;
        let mut types: Vec<Value> = Vec::new();
        let mut walk = OneOrMany::from(value);
        loop
            invariant
                0 <= done <= items.len(),
                items == one_or_many(value@),
                walk.remaining() == items.skip(done),
                types@.len() == process_types(context@, self.target@, items.take(done)).len(),
                forall|i: int|
                    0 <= i < types@.len() ==> (#[trigger] types@[i])@ == process_types(
                        context@,
                        self.target@,
                        items.take(done),
                    )[i],
            ensures
                types@.len() == process_types(context@, self.target@, items).len(),
                forall|i: int|
                    0 <= i < types@.len() ==> (#[trigger] types@[i])@ == process_types(
                        context@,
                        self.target@,
                        items,
                    )[i],
            decreases items.len() - done,
        {
            match walk.next() {
                Some(item) => {
                    proof {
                        assert(items.take(done + 1).drop_last() =~= items.take(done));
                        assert(walk.remaining() =~= items.skip(done + 1));
                        done = done + 1;
                    }
                    match item {
                        Value::String(name) => {
                            match context.expand_name(name.as_str()) {
                                Some(iri) => {
                                    let compact = self.target.compact_iri(iri.as_str());
                                    types.push(Value::String(compact));
                                },
                                None => {},
                            }
                        },
                        _ => {},
                    }
                },
                None => {
                    assert(items.take(done) =~= items);
                    break ;
                },
            }
        }
        types
    }
}

impl Clone for Processor {
    fn clone(&self) -> (r: Self)
        ensures
            r.context@ == self.context@,
            r.target@ == self.target@,
    {
        Processor { context: self.context.clone(), target: self.target.clone() }
    }
}

impl Default for Processor {
    fn default() -> (r: Processor)
        ensures
            r.context@ == crate::context::empty_context(),
            r.target@ == Seq::<(Seq<char>, Seq<char>)>::empty(),
    {
        Processor::new()
    }
}

} // verus!
