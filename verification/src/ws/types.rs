//! Struct types to look for, whatever their type arguments.

use vstd::prelude::*;

use crate::sequences::{law_views_stand_in_place, views};
use crate::strings::{
    join_path, law_path_of_parts, law_split_undoes_join, split_at_separators, split_path,
};
use crate::transaction::{
    Address, MoveStructTag, MoveStructTagView, MoveType, MoveTypeView,
};

verus! {

/// A struct type without its type arguments.
pub struct Type {
    pub address: Address,
    pub module: String,
    pub name: String,
}

#[verifier::ext_equal]
pub struct TypeView {
    pub address: Seq<u8>,
    pub module: Seq<char>,
    pub name: Seq<char>,
}

impl View for Type {
    type V = TypeView;

    open spec fn view(&self) -> TypeView {
        TypeView { address: self.address@, module: self.module@, name: self.name@ }
    }
}

impl Clone for Type {
    fn clone(&self) -> (copy: Self)
        ensures
            copy@ == self@,
    {
        Type { address: self.address, module: self.module.clone(), name: self.name.clone() }
    }
}

/// The struct type that a tag is an instance of.
pub open spec fn type_of(tag: MoveStructTagView) -> TypeView {
    TypeView { address: tag.address, module: tag.module, name: tag.name }
}

impl Type {
    pub fn new(address: Address, module: String, name: String) -> (typ: Type)
        ensures
            typ == (Type { address, module, name }),
    {
        Type { address, module, name }
    }

    /// Whether a tag is an instance of this type.
    pub fn eq(&self, struct_tag: &MoveStructTag) -> (same: bool)
        ensures
            same == (self@ == type_of(struct_tag@)),
    {
        self.address.same_as(&struct_tag.address) && self.module == struct_tag.module && self.name
            == struct_tag.name
    }
}

/// A list of struct types.
pub struct TypeVec(pub Vec<Type>);

impl View for TypeVec {
    type V = Seq<TypeView>;

    open spec fn view(&self) -> Seq<TypeView> {
        views(self.0@)
    }
}

impl Clone for TypeVec {
    fn clone(&self) -> (copy: Self)
        ensures
            copy@ == self@,
    {
        let mut copy: Vec<Type> = Vec::new();
        for i in 0..self.0.len()
            invariant
                views(copy@) == self@.take(i as int),
        {
            let ghost before = copy@;
            copy.push(self.0[i].clone());
            assert(views(copy@) =~= views(before).push(self.0@[i as int]@));
            assert(views(copy@) =~= self@.take(i + 1));
        }
        assert(views(copy@) =~= self@);
        TypeVec(copy)
    }
}

/// A Move type is a struct whose type is in the list.
pub open spec fn has_move_type(types: Seq<TypeView>, move_type: MoveTypeView) -> bool {
    match move_type {
        MoveTypeView::Struct(tag) => types.contains(type_of(tag)),
        MoveTypeView::Other => false,
    }
}

impl TypeVec {
    /// Whether a Move type is a struct whose type is in the list.
    pub fn contains_move_type(&self, move_type: &MoveType) -> (found: bool)
        ensures
            found == has_move_type(self@, move_type@),
    {
        if let MoveType::Struct(s) = move_type {
            self.contains(s)
        } else {
            false
        }
    }

    /// Whether a tag is an instance of a type in the list.
    pub fn contains(&self, struct_tag: &MoveStructTag) -> (found: bool)
        ensures
            found == self@.contains(type_of(struct_tag@)),
    {
        for i in 0..self.0.len()
            invariant
                forall|j: int| 0 <= j < i ==> self@[j] != type_of(struct_tag@),
        {
            assert(self@[i as int] == self.0@[i as int]@);
            if self.0[i].eq(struct_tag) {
                return true;
            }
        }
        false
    }
}

/// A text names a struct type as `address::module::name`: it has exactly three parts.
pub open spec fn is_type_path(text: Seq<char>) -> bool {
    split_path(text).len() == 3
}

/// Whether a text names a struct type.
pub fn check_type_path(text: &String) -> (ok: bool)
    ensures
        ok == is_type_path(text@),
{
    let parts = split_at_separators(text.as_str());
    assert(views(parts@).len() == parts@.len());
    parts.len() == 3
}

/// Every text names a struct type, and the two parsers can be run on its parts.
pub open spec fn can_parse<A: Fn(String) -> Address, I: Fn(String) -> String>(
    parse_address: A,
    parse_identifier: I,
    texts: Seq<Seq<char>>,
) -> bool {
    &&& forall|i: int| 0 <= i < texts.len() ==> is_type_path(#[trigger] texts[i])
    &&& forall|i: int, part: String|
        0 <= i < texts.len() && part@ == #[trigger] split_path(texts[i])[0]
            ==> #[trigger] call_requires(parse_address, (part,))
    &&& forall|i: int, part: String|
        #![trigger split_path(texts[i]), call_requires(parse_identifier, (part,))]
        0 <= i < texts.len() && (part@ == split_path(texts[i])[1] || part@ == split_path(
            texts[i],
        )[2]) ==> call_requires(parse_identifier, (part,))
}

/// A struct type is what the two parsers make of the parts of a text.
pub open spec fn is_parsed_from<A: Fn(String) -> Address, I: Fn(String) -> String>(
    parse_address: A,
    parse_identifier: I,
    text: Seq<char>,
    typ: TypeView,
) -> bool {
    &&& exists|part: String, address: Address|
        part@ == split_path(text)[0] && address@ == typ.address && #[trigger] call_ensures(
            parse_address,
            (part,),
            address,
        )
    &&& exists|part: String, module: String|
        part@ == split_path(text)[1] && module@ == typ.module && #[trigger] call_ensures(
            parse_identifier,
            (part,),
            module,
        )
    &&& exists|part: String, name: String|
        part@ == split_path(text)[2] && name@ == typ.name && #[trigger] call_ensures(
            parse_identifier,
            (part,),
            name,
        )
}

/// The struct types are what the two parsers make of the texts, one for one.
pub open spec fn are_parsed_from<A: Fn(String) -> Address, I: Fn(String) -> String>(
    parse_address: A,
    parse_identifier: I,
    texts: Seq<Seq<char>>,
    types: Seq<TypeView>,
) -> bool {
    &&& types.len() == texts.len()
    &&& forall|i: int|
        0 <= i < texts.len() ==> is_parsed_from(
            parse_address,
            parse_identifier,
            texts[i],
            #[trigger] types[i],
        )
}

/// Reads struct types out of texts. The node's own parsers turn the parts into an address and
/// into identifiers.
pub fn to_type<A: Fn(String) -> Address, I: Fn(String) -> String>(
    types: &Vec<String>,
    parse_address: &A,
    parse_identifier: &I,
) -> (parsed: TypeVec)
    requires
        can_parse(*parse_address, *parse_identifier, views(types@)),
    ensures
        are_parsed_from(*parse_address, *parse_identifier, views(types@), parsed@),
{
    let ghost texts = views(types@);
    let mut parsed: Vec<Type> = Vec::new();
    for i in 0..types.len()
        invariant
            texts == views(types@),
            can_parse(*parse_address, *parse_identifier, texts),
            parsed@.len() == i,
            forall|j: int|
                0 <= j < i ==> is_parsed_from(
                    *parse_address,
                    *parse_identifier,
                    texts[j],
                    (#[trigger] parsed@[j])@,
                ),
    {
        let split = split_at_separators(types[i].as_str());
        let ghost text = texts[i as int];
        assert(text == types@[i as int]@ && is_type_path(text));
        assert(split@[0]@ == views(split@)[0]);
        assert(split@[1]@ == views(split@)[1]);
        assert(split@[2]@ == views(split@)[2]);
        let address = parse_address(split[0].clone());
        let module = parse_identifier(split[1].clone());
        let name = parse_identifier(split[2].clone());
        parsed.push(Type::new(address, module, name));
    }
    TypeVec(parsed)
}

/// Type arguments do not matter: of two tags with the same address, module and name, the list
/// has both or neither, however they are printed.
pub proof fn law_type_arguments_do_not_matter(
    types: Seq<TypeView>,
    tag: MoveStructTagView,
    other: MoveStructTagView,
)
    requires
        tag.address == other.address,
        tag.module == other.module,
        tag.name == other.name,
    ensures
        types.contains(type_of(tag)) == types.contains(type_of(other)),
        has_move_type(types, MoveTypeView::Struct(tag)) == has_move_type(
            types,
            MoveTypeView::Struct(other),
        ),
{
}

/// On the parts of a text that names a struct type, the address parser gives nothing but the
/// address that `address_of` says, and the identifier parser nothing but the part itself.
pub open spec fn parsers_agree<A: Fn(String) -> Address, I: Fn(String) -> String>(
    parse_address: A,
    parse_identifier: I,
    address_of: spec_fn(Seq<char>) -> Seq<u8>,
    text: Seq<char>,
) -> bool {
    &&& forall|part: String, address: Address|
        part@ == split_path(text)[0] && #[trigger] call_ensures(parse_address, (part,), address)
            ==> address@ == address_of(part@)
    &&& forall|part: String, identifier: String|
        (part@ == split_path(text)[1] || part@ == split_path(text)[2]) && #[trigger] call_ensures(
            parse_identifier,
            (part,),
            identifier,
        ) ==> identifier@ == part@
}

/// The struct type that a text names.
pub open spec fn named_type(
    address_of: spec_fn(Seq<char>) -> Seq<u8>,
    text: Seq<char>,
) -> TypeView {
    TypeView {
        address: address_of(split_path(text)[0]),
        module: split_path(text)[1],
        name: split_path(text)[2],
    }
}

/// The types read out of texts are those that the texts name, one for one, so a tag is an
/// instance of one of them just where some text names its type.
pub proof fn law_types_are_as_named<A: Fn(String) -> Address, I: Fn(String) -> String>(
    parse_address: A,
    parse_identifier: I,
    address_of: spec_fn(Seq<char>) -> Seq<u8>,
    texts: Seq<Seq<char>>,
    types: Seq<TypeView>,
    tag: MoveStructTagView,
)
    requires
        are_parsed_from(parse_address, parse_identifier, texts, types),
        forall|i: int|
            0 <= i < texts.len() ==> parsers_agree(
                parse_address,
                parse_identifier,
                address_of,
                #[trigger] texts[i],
            ),
    ensures
        types == texts.map_values(|text: Seq<char>| named_type(address_of, text)),
        types.contains(type_of(tag)) <==> exists|i: int|
            0 <= i < texts.len() && named_type(address_of, #[trigger] texts[i]) == type_of(tag),
{
    let named = texts.map_values(|text: Seq<char>| named_type(address_of, text));
    assert forall|i: int| 0 <= i < texts.len() implies #[trigger] types[i] == named[i] by {
        assert(parsers_agree(parse_address, parse_identifier, address_of, texts[i]));
        assert(is_parsed_from(parse_address, parse_identifier, texts[i], types[i]));
        assert(types[i] =~= named[i]);
    }
    assert(types =~= named);
    if exists|i: int|
        0 <= i < texts.len() && named_type(address_of, #[trigger] texts[i]) == type_of(tag) {
        let i = choose|i: int|
            0 <= i < texts.len() && named_type(address_of, #[trigger] texts[i]) == type_of(tag);
        assert(types[i] == type_of(tag));
    }
    if types.contains(type_of(tag)) {
        let i = choose|i: int| 0 <= i < types.len() && types[i] == type_of(tag);
        assert(named_type(address_of, texts[i]) == type_of(tag));
    }
}

/// An address, a module and a name with `::` between them.
pub open spec fn type_path(address: Seq<char>, module: Seq<char>, name: Seq<char>) -> Seq<char> {
    address + seq![':', ':'] + (module + seq![':', ':'] + name)
}

/// The type read out of `address::module::name` is there for just the tags with that address,
/// module and name, whatever their type arguments.
pub proof fn law_path_names_its_type<A: Fn(String) -> Address, I: Fn(String) -> String>(
    parse_address: A,
    parse_identifier: I,
    address_of: spec_fn(Seq<char>) -> Seq<u8>,
    address: Seq<char>,
    module: Seq<char>,
    name: Seq<char>,
    types: Seq<TypeView>,
    tag: MoveStructTagView,
)
    requires
        !address.contains(':'),
        !module.contains(':'),
        !name.contains(':'),
        are_parsed_from(
            parse_address,
            parse_identifier,
            seq![type_path(address, module, name)],
            types,
        ),
        parsers_agree(
            parse_address,
            parse_identifier,
            address_of,
            type_path(address, module, name),
        ),
    ensures
        is_type_path(type_path(address, module, name)),
        types == seq![TypeView { address: address_of(address), module, name }],
        types.contains(type_of(tag)) <==> tag.address == address_of(address) && tag.module
            == module && tag.name == name,
        has_move_type(types, MoveTypeView::Struct(tag)) == types.contains(type_of(tag)),
{
    let text = type_path(address, module, name);
    law_path_of_parts(address, module, name);
    law_types_are_as_named(
        parse_address,
        parse_identifier,
        address_of,
        seq![text],
        types,
        tag,
    );
    let wanted = TypeView { address: address_of(address), module, name };
    assert(types =~= seq![wanted]);
    assert(types[0] == wanted);
}

/// How an address is written makes no difference: two spellings that the address parser reads as
/// one address, in a path with the same module and name, give the same type.
pub proof fn law_spelling_of_address_does_not_matter<
    A: Fn(String) -> Address,
    I: Fn(String) -> String,
>(
    parse_address: A,
    parse_identifier: I,
    address_of: spec_fn(Seq<char>) -> Seq<u8>,
    spelling: Seq<char>,
    other_spelling: Seq<char>,
    module: Seq<char>,
    name: Seq<char>,
    types: Seq<TypeView>,
    other_types: Seq<TypeView>,
)
    requires
        !spelling.contains(':'),
        !other_spelling.contains(':'),
        !module.contains(':'),
        !name.contains(':'),
        address_of(spelling) == address_of(other_spelling),
        are_parsed_from(
            parse_address,
            parse_identifier,
            seq![type_path(spelling, module, name)],
            types,
        ),
        are_parsed_from(
            parse_address,
            parse_identifier,
            seq![type_path(other_spelling, module, name)],
            other_types,
        ),
        parsers_agree(
            parse_address,
            parse_identifier,
            address_of,
            type_path(spelling, module, name),
        ),
        parsers_agree(
            parse_address,
            parse_identifier,
            address_of,
            type_path(other_spelling, module, name),
        ),
    ensures
        types == other_types,
{
    let tag = MoveStructTagView {
        address: address_of(spelling),
        module,
        name,
        display: Seq::empty(),
    };
    law_path_names_its_type(
        parse_address,
        parse_identifier,
        address_of,
        spelling,
        module,
        name,
        types,
        tag,
    );
    law_path_names_its_type(
        parse_address,
        parse_identifier,
        address_of,
        other_spelling,
        module,
        name,
        other_types,
        tag,
    );
}

/// A list has the type of a tag just where some type in it, at any place, has the address, the
/// module and the name of the tag.
pub proof fn lemma_types_contain(types: Seq<TypeView>, tag: MoveStructTag)
    ensures
        types.contains(type_of(tag@)) <==> exists|n: int|
            0 <= n < types.len() && (#[trigger] types[n]).address == tag.address.0@
                && types[n].module == tag.module@ && types[n].name == tag.name@,
{
    if types.contains(type_of(tag@)) {
        let n = choose|n: int| 0 <= n < types.len() && types[n] == type_of(tag@);
        assert(types[n].address == tag.address.0@);
    }
    if exists|n: int|
        0 <= n < types.len() && (#[trigger] types[n]).address == tag.address.0@ && types[n].module
            == tag.module@ && types[n].name == tag.name@ {
        let n = choose|n: int|
            0 <= n < types.len() && (#[trigger] types[n]).address == tag.address.0@
                && types[n].module == tag.module@ && types[n].name == tag.name@;
        assert(types[n] =~= type_of(tag@));
    }
}

/// A type is that of a tag just where address, module and name are the same.
pub proof fn law_type_is_address_module_and_name(typ: Type, tag: MoveStructTag)
    ensures
        typ@ == type_of(tag@) <==> {
            &&& typ.address.0@ == tag.address.0@
            &&& typ.module@ == tag.module@
            &&& typ.name@ == tag.name@
        },
{
}

/// A struct type is found in a list, of whatever length, just where some type in it, at any
/// place, has its address, module and name. What is not a struct is never found.
pub proof fn law_whole_list_is_searched(types: TypeVec, tag: MoveStructTag)
    ensures
        types@.contains(type_of(tag@)) <==> exists|n: int|
            0 <= n < types.0@.len() && (#[trigger] types.0@[n]).address.0@ == tag.address.0@
                && types.0@[n].module@ == tag.module@ && types.0@[n].name@ == tag.name@,
        has_move_type(types@, MoveType::Struct(tag)@) <==> exists|n: int|
            0 <= n < types.0@.len() && (#[trigger] types.0@[n]).address.0@ == tag.address.0@
                && types.0@[n].module@ == tag.module@ && types.0@[n].name@ == tag.name@,
        !has_move_type(types@, MoveType::Other@),
{
    law_views_stand_in_place(types.0@);
    lemma_types_contain(types@, tag);
    if types@.contains(type_of(tag@)) {
        let n = choose|n: int|
            0 <= n < types@.len() && (#[trigger] types@[n]).address == tag.address.0@
                && types@[n].module == tag.module@ && types@[n].name == tag.name@;
        assert(types@[n] == types.0@[n]@);
        assert(types.0@[n].address.0@ == tag.address.0@);
    }
    if exists|n: int|
        0 <= n < types.0@.len() && (#[trigger] types.0@[n]).address.0@ == tag.address.0@
            && types.0@[n].module@ == tag.module@ && types.0@[n].name@ == tag.name@ {
        let n = choose|n: int|
            0 <= n < types.0@.len() && (#[trigger] types.0@[n]).address.0@ == tag.address.0@
                && types.0@[n].module@ == tag.module@ && types.0@[n].name@ == tag.name@;
        assert(types@[n] == types.0@[n]@);
        assert(types@[n].address == tag.address.0@);
    }
}

/// What is read out of a list of paths has, at each place, the address, the module and the name
/// that the path at that place has, with the address as the parser reads it.
pub proof fn law_paths_are_read_one_for_one<A: Fn(String) -> Address, I: Fn(String) -> String>(
    parse_address: A,
    parse_identifier: I,
    address_of: spec_fn(Seq<char>) -> Seq<u8>,
    texts: Seq<String>,
    paths: Seq<(Seq<char>, Seq<char>, Seq<char>)>,
    types: Seq<TypeView>,
)
    requires
        are_parsed_from(parse_address, parse_identifier, views(texts), types),
        texts.len() == paths.len(),
        forall|n: int|
            0 <= n < paths.len() ==> {
                &&& !(#[trigger] paths[n]).0.contains(':')
                &&& !paths[n].1.contains(':')
                &&& !paths[n].2.contains(':')
                &&& texts[n]@ == paths[n].0 + seq![':', ':'] + (paths[n].1 + seq![':', ':']
                    + paths[n].2)
            },
        forall|n: int, part: String, address: Address|
            0 <= n < paths.len() && part@ == (#[trigger] paths[n]).0 && #[trigger] call_ensures(
                parse_address,
                (part,),
                address,
            ) ==> address.0@ == address_of(part@),
        forall|n: int, part: String, identifier: String|
            0 <= n < paths.len() && (part@ == (#[trigger] paths[n]).1 || part@ == paths[n].2)
                && #[trigger] call_ensures(parse_identifier, (part,), identifier)
                ==> identifier@ == part@,
    ensures
        types.len() == texts.len(),
        forall|n: int|
            0 <= n < types.len() ==> {
                &&& (#[trigger] types[n]).address == address_of(paths[n].0)
                &&& types[n].module == paths[n].1
                &&& types[n].name == paths[n].2
            },
{
    law_views_stand_in_place(texts);
    assert forall|n: int| 0 <= n < types.len() implies {
        &&& (#[trigger] types[n]).address == address_of(paths[n].0)
        &&& types[n].module == paths[n].1
        &&& types[n].name == paths[n].2
    } by {
        let path = paths[n];
        law_path_of_parts(path.0, path.1, path.2);
        assert(views(texts)[n] == texts[n]@);
        assert(split_path(texts[n]@) == seq![path.0, path.1, path.2]);
        assert(is_parsed_from(parse_address, parse_identifier, views(texts)[n], types[n]));
    }
}

/// What the texts of a list say decides on what is found by it: a struct type is found just where
/// some one of the texts, at any place of the list, names its address, module and name.
pub proof fn law_texts_decide_what_is_found<A: Fn(String) -> Address, I: Fn(String) -> String>(
    parse_address: A,
    parse_identifier: I,
    address_of: spec_fn(Seq<char>) -> Seq<u8>,
    texts: Seq<String>,
    paths: Seq<(Seq<char>, Seq<char>, Seq<char>)>,
    types: TypeVec,
    tag: MoveStructTag,
)
    requires
        are_parsed_from(parse_address, parse_identifier, views(texts), types@),
        texts.len() == paths.len(),
        forall|n: int|
            0 <= n < paths.len() ==> {
                &&& !(#[trigger] paths[n]).0.contains(':')
                &&& !paths[n].1.contains(':')
                &&& !paths[n].2.contains(':')
                &&& texts[n]@ == paths[n].0 + seq![':', ':'] + (paths[n].1 + seq![':', ':']
                    + paths[n].2)
            },
        forall|n: int, part: String, address: Address|
            0 <= n < paths.len() && part@ == (#[trigger] paths[n]).0 && #[trigger] call_ensures(
                parse_address,
                (part,),
                address,
            ) ==> address.0@ == address_of(part@),
        forall|n: int, part: String, identifier: String|
            0 <= n < paths.len() && (part@ == (#[trigger] paths[n]).1 || part@ == paths[n].2)
                && #[trigger] call_ensures(parse_identifier, (part,), identifier)
                ==> identifier@ == part@,
    ensures
        types.0@.len() == texts.len(),
        has_move_type(types@, MoveType::Struct(tag)@) <==> exists|n: int|
            0 <= n < paths.len() && address_of((#[trigger] paths[n]).0) == tag.address.0@
                && paths[n].1 == tag.module@ && paths[n].2 == tag.name@,
        types@.contains(type_of(tag@)) <==> exists|n: int|
            0 <= n < paths.len() && address_of((#[trigger] paths[n]).0) == tag.address.0@
                && paths[n].1 == tag.module@ && paths[n].2 == tag.name@,
{
    law_views_stand_in_place(types.0@);
    law_paths_are_read_one_for_one(
        parse_address,
        parse_identifier,
        address_of,
        texts,
        paths,
        types@,
    );
    lemma_types_contain(types@, tag);
    if types@.contains(type_of(tag@)) {
        let n = choose|n: int|
            0 <= n < types@.len() && (#[trigger] types@[n]).address == tag.address.0@
                && types@[n].module == tag.module@ && types@[n].name == tag.name@;
        assert(address_of(paths[n].0) == tag.address.0@);
    }
    if exists|n: int|
        0 <= n < paths.len() && address_of((#[trigger] paths[n]).0) == tag.address.0@
            && paths[n].1 == tag.module@ && paths[n].2 == tag.name@ {
        let n = choose|n: int|
            0 <= n < paths.len() && address_of((#[trigger] paths[n]).0) == tag.address.0@
                && paths[n].1 == tag.module@ && paths[n].2 == tag.name@;
        assert(types@[n].address == tag.address.0@);
    }
}

/// Paths of an address, a module and a name can be read, however many there are, where the parsers
/// can be run on their parts.
pub proof fn law_paths_can_be_read<A: Fn(String) -> Address, I: Fn(String) -> String>(
    parse_address: A,
    parse_identifier: I,
    texts: Seq<String>,
    paths: Seq<(Seq<char>, Seq<char>, Seq<char>)>,
)
    requires
        texts.len() == paths.len(),
        forall|n: int|
            0 <= n < paths.len() ==> {
                &&& !(#[trigger] paths[n]).0.contains(':')
                &&& !paths[n].1.contains(':')
                &&& !paths[n].2.contains(':')
                &&& texts[n]@ == paths[n].0 + seq![':', ':'] + (paths[n].1 + seq![':', ':']
                    + paths[n].2)
            },
        forall|n: int, part: String|
            0 <= n < paths.len() && part@ == (#[trigger] paths[n]).0 ==> #[trigger] call_requires(
                parse_address,
                (part,),
            ),
        forall|n: int, part: String|
            0 <= n < paths.len() && (part@ == (#[trigger] paths[n]).1 || part@ == paths[n].2)
                ==> #[trigger] call_requires(parse_identifier, (part,)),
    ensures
        can_parse(parse_address, parse_identifier, views(texts)),
{
    law_views_stand_in_place(texts);
    assert forall|n: int| 0 <= n < texts.len() implies split_path(#[trigger] views(texts)[n])
        == seq![paths[n].0, paths[n].1, paths[n].2] by {
        law_path_of_parts(paths[n].0, paths[n].1, paths[n].2);
    }
}

/// A text names a struct type just where it is put together of three parts: parts in which there
/// is no `::`, and of which none but the last ends in a colon, name a type just where they are
/// three.
pub proof fn law_path_has_three_parts(parts: Seq<Seq<char>>)
    requires
        parts.len() > 0,
        forall|k: int, i: int|
            0 <= k < parts.len() && 0 <= i < parts[k].len() - 1 ==> !(#[trigger] parts[k][i] == ':'
                && parts[k][i + 1] == ':'),
        forall|k: int|
            0 <= k < parts.len() - 1 && (#[trigger] parts[k]).len() > 0 ==> parts[k].last() != ':',
    ensures
        is_type_path(join_path(parts)) <==> parts.len() == 3,
{
    law_split_undoes_join(parts);
}

} // verus!
