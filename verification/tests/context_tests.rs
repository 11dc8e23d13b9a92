use eggshell::context::context_manager::ContextManager;
use eggshell::context::data_types::CompositeTypeDef;
use eggshell::context::data_types::DataType;
use eggshell::context::errors::Error;
use eggshell::types::add_standard_composite_types;

#[test]
fn test_get_name_primitive() {
    assert_eq!(DataType::String.get_name(), "String")
}

#[test]
fn test_get_name_composite() {
    let dt = DataType::CompositeType(CompositeTypeDef {
        name: "foo".to_string(),
        fields: Vec::new(),
        extends: Vec::new(),
    });
    assert_eq!(dt.get_name(), "foo")
}

fn composite(name: &str, fields: Vec<(&str, usize)>, extends: Vec<usize>) -> CompositeTypeDef {
    CompositeTypeDef {
        name: name.to_string(),
        fields: fields.into_iter().map(|(n, t)| (n.to_string(), t)).collect(),
        extends,
    }
}

#[test]
fn new_manager_knows_string_alone() {
    let ctx = ContextManager::new();
    assert_eq!(ctx.get_data_type_id(&"String".to_string()), Ok(Some(0)));
    assert_eq!(ctx.get_data_type_id(&"Result".to_string()), Ok(None));
    assert!(matches!(ctx.get_data_type(0), Ok(DataType::String)));
    assert_eq!(
        ctx.get_data_type(1).err(),
        Some(Error::ContextManagerInvalidDataTypeID(1))
    );
    assert_eq!(
        ctx.get_required_data_type_id(&"Nope".to_string()),
        Err(Error::ContextManagerMissingRequiredDataTypeID("Nope".to_string()))
    );
    assert_eq!(ContextManager::default().get_required_data_type_id(&"String".to_string()), Ok(0));
}

#[test]
fn added_types_get_the_next_id_and_their_name() {
    let mut ctx = ContextManager::new();
    ctx.add_data_type(composite("A", vec![], vec![]));
    ctx.add_data_type(composite("B", vec![], vec![]));
    assert_eq!(ctx.get_required_data_type_id(&"A".to_string()), Ok(1));
    assert_eq!(ctx.get_required_data_type_id(&"B".to_string()), Ok(2));
    assert_eq!(ctx.get_data_type(2).unwrap().get_name(), "B");
    ctx.add_data_type(composite("A", vec![], vec![]));
    assert_eq!(ctx.get_required_data_type_id(&"A".to_string()), Ok(3));
}

#[test]
fn inner_scopes_see_outer_names_and_may_shadow_them() {
    let mut ctx = ContextManager::new();
    ctx.add_data_type(composite("A", vec![], vec![]));
    ctx.push_context();
    assert_eq!(ctx.get_data_type_id(&"A".to_string()), Ok(Some(1)));
    assert_eq!(ctx.get_data_type_id(&"String".to_string()), Ok(Some(0)));
    ctx.add_data_type(composite("A", vec![], vec![]));
    assert_eq!(ctx.get_data_type_id(&"A".to_string()), Ok(Some(2)));
    ctx.push_context();
    assert_eq!(ctx.get_data_type_id(&"A".to_string()), Ok(Some(2)));
}

#[test]
fn standard_types_are_base_and_result() {
    let mut ctx = ContextManager::new();
    assert!(add_standard_composite_types(&mut ctx).is_ok());
    assert_eq!(ctx.get_required_data_type_id(&"Base".to_string()), Ok(1));
    assert_eq!(ctx.get_required_data_type_id(&"Result".to_string()), Ok(2));
    match ctx.get_data_type(2).unwrap() {
        DataType::CompositeType(result) => {
            assert_eq!(result.name, "Result");
            assert_eq!(
                result.fields,
                vec![("out".to_string(), 0), ("err".to_string(), 0), ("both".to_string(), 0)]
            );
            assert!(result.extends.is_empty());
        }
        DataType::String => panic!("Result is a composite type"),
    }
    match ctx.get_data_type(1).unwrap() {
        DataType::CompositeType(base) => {
            assert_eq!(base.name, "Base");
            assert!(base.fields.is_empty());
            assert!(base.extends.is_empty());
        }
        DataType::String => panic!("Base is a composite type"),
    }
}

#[test]
fn composite_inherits_fields_and_ancestors() {
    let mut ctx = ContextManager::new();
    ctx.add_data_type(composite("Root", vec![("id", 0)], vec![]));
    ctx.add_data_type(composite("Mid", vec![("id", 0), ("tag", 0)], vec![1]));
    let made = CompositeTypeDef::new_composite(
        &ctx,
        "Leaf".to_string(),
        vec![("own".to_string(), 0)],
        vec![2],
    )
    .unwrap();
    assert_eq!(made.name, "Leaf");
    assert_eq!(
        made.fields,
        vec![("own".to_string(), 0), ("id".to_string(), 0), ("tag".to_string(), 0)]
    );
    assert_eq!(made.extends, vec![2, 1]);
}

#[test]
fn composite_own_fields_later_pair_counts() {
    let ctx = ContextManager::new();
    let made = CompositeTypeDef::new_composite(
        &ctx,
        "T".to_string(),
        vec![("x".to_string(), 0), ("y".to_string(), 0), ("x".to_string(), 5)],
        vec![],
    )
    .unwrap();
    assert_eq!(made.fields, vec![("x".to_string(), 5), ("y".to_string(), 0)]);
    assert!(made.extends.is_empty());
}

#[test]
fn composite_cannot_extend_a_primitive() {
    let ctx = ContextManager::new();
    let r = CompositeTypeDef::new_composite(&ctx, "T".to_string(), vec![], vec![0]);
    assert_eq!(
        r.err(),
        Some(Error::DataTypeCannotExtendPrimitiveType {
            data_type: "T".to_string(),
            extends: "String".to_string(),
        })
    );
}

#[test]
fn composite_cannot_extend_what_is_not_there() {
    let ctx = ContextManager::new();
    let r = CompositeTypeDef::new_composite(&ctx, "T".to_string(), vec![], vec![4]);
    assert_eq!(r.err(), Some(Error::ContextManagerInvalidDataTypeID(4)));
}

#[test]
fn composite_reports_conflicting_fields() {
    let mut ctx = ContextManager::new();
    ctx.add_data_type(composite("A", vec![], vec![]));
    ctx.add_data_type(composite("P", vec![("x", 1)], vec![]));
    let r = CompositeTypeDef::new_composite(
        &ctx,
        "T".to_string(),
        vec![("x".to_string(), 0)],
        vec![2],
    );
    assert_eq!(
        r.err(),
        Some(Error::DatatypeConflictingFieldDefinitions {
            data_type: "T".to_string(),
            field_type_a: "String".to_string(),
            field_type_b: "A".to_string(),
        })
    );
}
