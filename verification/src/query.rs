//! Queries over a decoded document.
//!
//! The decoder surfaces elements and attributes; these queries answer the
//! two questions the tool asks of a manifest: the package name, and whether
//! the application is debuggable.
use vstd::prelude::*;

use crate::chunk::Context;
use crate::element::AttributeModel;
use crate::element::AttributeValue;
use crate::element::ElementModel;

verus! {

/// The first string-typed value among `attrs` carried by an attribute named
/// `name`, in record order.
pub open spec fn first_text_value(attrs: Seq<AttributeModel>, name: Seq<char>) -> Option<Seq<char>>
    decreases attrs.len(),
{
    if attrs.len() == 0 {
        None
    } else if attrs[0].name == name && attrs[0].value is Text {
        Some(attrs[0].value->Text_0)
    } else {
        first_text_value(attrs.skip(1), name)
    }
}

/// The first boolean-typed value among `attrs` carried by an attribute named
/// `name`, in record order.
pub open spec fn first_bool_value(attrs: Seq<AttributeModel>, name: Seq<char>) -> Option<bool>
    decreases attrs.len(),
{
    if attrs.len() == 0 {
        None
    } else if attrs[0].name == name && attrs[0].value is Boolean {
        Some(attrs[0].value->Boolean_0)
    } else {
        first_bool_value(attrs.skip(1), name)
    }
}

/// The package name of the document: the first string-typed `package`
/// attribute of an element tagged `manifest`, scanning elements in document
/// order.
pub open spec fn spec_package_name(elems: Seq<ElementModel>) -> Option<Seq<char>>
    decreases elems.len(),
{
    if elems.len() == 0 {
        None
    } else if elems[0].tag == "manifest"@ && first_text_value(elems[0].attributes, "package"@)
        is Some {
        first_text_value(elems[0].attributes, "package"@)
    } else {
        spec_package_name(elems.skip(1))
    }
}

/// The debuggable flag of the document: decided by the first element tagged
/// `application` — its first boolean-typed `debuggable` attribute, or false
/// when that element carries none. `None` when no `application` element
/// exists.
pub open spec fn spec_debuggable(elems: Seq<ElementModel>) -> Option<bool>
    decreases elems.len(),
{
    if elems.len() == 0 {
        None
    } else if elems[0].tag == "application"@ {
        match first_bool_value(elems[0].attributes, "debuggable"@) {
            Some(v) => Some(v),
            None => Some(false),
        }
    } else {
        spec_debuggable(elems.skip(1))
    }
}

/// The value of the `package` attribute on the `manifest` element, or `None`
/// when no such attribute exists.
#[verifier::loop_isolation(false)]
pub fn package_name(context: &Context) -> (r: Option<String>)
    ensures
        ({
            let spec = spec_package_name(context.elements.deep_view());
            match r {
                Some(s) => spec == Some(s@),
                None => spec is None,
            }
        }),
{
    let ghost dv = context.elements.deep_view();
    let manifest: String = "manifest".to_owned();
    let package: String = "package".to_owned();
    let mut i: usize = 0;
    proof {
        assert(dv.skip(0) =~= dv);
    }
    while i < context.elements.len()
        invariant
            i <= dv.len(),
            spec_package_name(dv) == spec_package_name(dv.skip(i as int)),
        decreases dv.len() - i,
    {
        let ghost rest = dv.skip(i as int);
        let e = &context.elements[i];
        assert(rest[0] == e.deep_view());
        if e.tag == manifest {
            let ghost attrs = e.deep_view().attributes;
            let mut j: usize = 0;
            proof {
                assert(attrs.skip(0) =~= attrs);
            }
            while j < e.attributes.len()
                invariant
                    j <= attrs.len(),
                    first_text_value(attrs, "package"@) == first_text_value(
                        attrs.skip(j as int),
                        "package"@,
                    ),
                decreases attrs.len() - j,
            {
                let ghost arest = attrs.skip(j as int);
                let a = &e.attributes[j];
                assert(arest[0] == a.deep_view());
                if a.name == package {
                    match &a.value {
                        AttributeValue::Text(s) => {
                            return Some(s.clone());
                        },
                        _ => {},
                    }
                }
                proof {
                    assert(arest.skip(1) =~= attrs.skip(j as int + 1));
                }
                j = j + 1;
            }
            proof {
                assert(attrs.skip(j as int) =~= Seq::<AttributeModel>::empty());
                assert(rest.skip(1) =~= dv.skip(i as int + 1));
            }
        } else {
            proof {
                assert(rest.skip(1) =~= dv.skip(i as int + 1));
            }
        }
        i = i + 1;
    }
    proof {
        assert(dv.skip(i as int) =~= Seq::<ElementModel>::empty());
    }
    None
}

/// The `debuggable` attribute of the `application` element interpreted as a
/// boolean, false when the element carries no such attribute, and `None`
/// when the document has no `application` element.
#[verifier::loop_isolation(false)]
pub fn debuggable_flag(context: &Context) -> (r: Option<bool>)
    ensures
        r == spec_debuggable(context.elements.deep_view()),
{
    let ghost dv = context.elements.deep_view();
    let application: String = "application".to_owned();
    let debuggable: String = "debuggable".to_owned();
    let mut i: usize = 0;
    proof {
        assert(dv.skip(0) =~= dv);
    }
    while i < context.elements.len()
        invariant
            i <= dv.len(),
            spec_debuggable(dv) == spec_debuggable(dv.skip(i as int)),
        decreases dv.len() - i,
    {
        let ghost rest = dv.skip(i as int);
        let e = &context.elements[i];
        assert(rest[0] == e.deep_view());
        if e.tag == application {
            let ghost attrs = e.deep_view().attributes;
            let mut j: usize = 0;
            proof {
                assert(attrs.skip(0) =~= attrs);
            }
            while j < e.attributes.len()
                invariant
                    j <= attrs.len(),
                    first_bool_value(attrs, "debuggable"@) == first_bool_value(
                        attrs.skip(j as int),
                        "debuggable"@,
                    ),
                decreases attrs.len() - j,
            {
                let ghost arest = attrs.skip(j as int);
                let a = &e.attributes[j];
                assert(arest[0] == a.deep_view());
                if a.name == debuggable {
                    match &a.value {
                        AttributeValue::Boolean(v) => {
                            return Some(*v);
                        },
                        _ => {},
                    }
                }
                proof {
                    assert(arest.skip(1) =~= attrs.skip(j as int + 1));
                }
                j = j + 1;
            }
            proof {
                assert(attrs.skip(j as int) =~= Seq::<AttributeModel>::empty());
            }
            return Some(false);
        }
        proof {
            assert(rest.skip(1) =~= dv.skip(i as int + 1));
        }
        i = i + 1;
    }
    proof {
        assert(dv.skip(i as int) =~= Seq::<ElementModel>::empty());
    }
    None
}

} // verus!
