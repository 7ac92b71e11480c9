use air_core::instruction::number_from;
use air_core::instruction::number_script;
use air_core::instruction::Instruction;
use air_core::instruction::Shape;

fn two(first: Shape, second: Shape) -> Shape {
    Shape::Sequence(Box::new(first), Box::new(second))
}

#[test]
fn instructions_are_numbered_in_the_order_in_which_they_are_written() {
    let shape = two(
        Shape::Call,
        Shape::Xor(
            Box::new(Shape::Fold { iterations: 3, body: Box::new(two(Shape::Call, Shape::Null)) }),
            Box::new(Shape::Call),
        ),
    );
    let expected = Instruction::Sequence(
        Box::new(Instruction::Call { node: 0 }),
        Box::new(Instruction::Xor {
            node: 1,
            first: Box::new(Instruction::Fold {
                node: 2,
                iterations: 3,
                body: Box::new(Instruction::Sequence(
                    Box::new(Instruction::Call { node: 3 }),
                    Box::new(Instruction::Null),
                )),
            }),
            second: Box::new(Instruction::Call { node: 4 }),
        }),
    );
    assert_eq!(number_script(&shape), Some(expected));
}

#[test]
fn numbering_goes_on_from_the_number_given() {
    assert_eq!(number_from(&Shape::Null, 7), Some((Instruction::Null, 7)));
    assert_eq!(number_from(&Shape::Call, 7), Some((Instruction::Call { node: 7 }, 8)));
    assert_eq!(
        number_from(&two(Shape::Call, Shape::Call), u32::MAX - 2),
        Some((
            Instruction::Sequence(
                Box::new(Instruction::Call { node: u32::MAX - 2 }),
                Box::new(Instruction::Call { node: u32::MAX - 1 }),
            ),
            u32::MAX
        ))
    );
}

#[test]
fn shape_with_more_instructions_than_numbers_is_no_script() {
    assert_eq!(number_from(&Shape::Call, u32::MAX), None);
    assert_eq!(number_from(&two(Shape::Call, Shape::Call), u32::MAX - 1), None);
    assert_eq!(
        number_from(&Shape::Fold { iterations: 1, body: Box::new(Shape::Null) }, u32::MAX),
        None
    );
    assert_eq!(
        number_from(&Shape::Xor(Box::new(Shape::Null), Box::new(Shape::Call)), u32::MAX - 1),
        None
    );
    assert_eq!(number_from(&Shape::Null, u32::MAX), Some((Instruction::Null, u32::MAX)));
}
