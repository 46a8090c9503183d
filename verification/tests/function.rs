use ecow::EcoVec;
use uiua::function::{
    ArraySwizzle, CodeSpan, DynamicFunction, FuncSlice, Function, FunctionFlags, FunctionId,
    Primitive, Signature, StackSwizzle, TempStack, NO_INLINE, RECURSIVE,
};

#[test]
fn signatures_compare_and_compose() {
    let a = Signature::new(2, 1);
    let b = Signature::new(3, 2);
    assert!(a.is_compatible_with(b));
    assert!(!a.is_compatible_with(Signature::new(1, 1)));
    assert!(Signature::new(0, 2).is_compatible_with(Signature::new(1, 3)));
    assert!(b.is_superset_of(a));
    assert!(!a.is_superset_of(b));
    assert!(a.is_subset_of(b));
    assert_eq!(a.max_with(Signature::new(1, 4)), Signature::new(2, 4));
    assert_eq!(a.inverse(), Signature::new(1, 2));
    assert_eq!(a.inverse().inverse(), a);
    assert_eq!(Signature::new(2, 1).compose(Signature::new(1, 1)), Signature::new(2, 1));
    assert_eq!(Signature::new(1, 1).compose(Signature::new(0, 3)), Signature::new(0, 3));
    assert_eq!(Signature::new(3, 2).compose(Signature::new(2, 1)), Signature::new(4, 2));
    assert_eq!(a.compose(Signature::new(0, 0)), a);
}

#[test]
fn slices_and_flags() {
    let s = FuncSlice { start: 4, len: 3 };
    assert_eq!(s.len(), 3);
    assert!(!s.is_empty());
    assert_eq!(s.end(), 7);
    assert_eq!(s.add(10), FuncSlice { start: 14, len: 3 });
    assert!(FuncSlice { start: 9, len: 0 }.is_empty());
    let flags = FunctionFlags { bits: RECURSIVE }.bitor(FunctionFlags { bits: NO_INLINE });
    assert!(flags.recursive());
    assert!(flags.no_inline());
    assert!(!flags.tracks_caller());
    assert!(!flags.no_pre_eval());
    assert_eq!(flags.bitand(FunctionFlags { bits: RECURSIVE }).bits, RECURSIVE);
    assert_eq!(FunctionFlags::default().bits, 0);
    assert_eq!(TempStack::Under.name(), "under");
    assert_eq!(TempStack::Inline.name(), "inline");
}

#[test]
fn functions_and_their_ids() {
    let span = CodeSpan { start: 3, end: 9 };
    assert_eq!(FunctionId::Anonymous(span).span(), Some(span));
    assert_eq!(FunctionId::Macro(span).span(), Some(span));
    assert_eq!(FunctionId::Main.span(), None);
    assert_eq!(FunctionId::Named(4).span(), None);
    let f = Function::new(
        FunctionId::Primitive(Primitive::Lt),
        Signature::new(2, 1),
        FuncSlice { start: 1, len: 2 },
        77,
    );
    assert_eq!(f.signature(), Signature::new(2, 1));
    assert_eq!(f.slice(), FuncSlice { start: 1, len: 2 });
    assert_eq!(f.as_primitive(), Some(Primitive::Lt));
    assert!(!f.is_recursive());
    assert!(f.with_flags(FunctionFlags { bits: RECURSIVE }).is_recursive());
    let named = Function::new(FunctionId::Named(0), Signature::new(1, 1), FuncSlice { start: 0, len: 0 }, 0);
    assert_eq!(named.as_primitive(), None);
    let other_signature = Function::new(FunctionId::Named(0), Signature::new(2, 2), FuncSlice { start: 0, len: 0 }, 0);
    assert_eq!(named, other_signature);
    assert_eq!(named, named.with_flags(FunctionFlags { bits: RECURSIVE }));
    let other_hash = Function::new(FunctionId::Named(0), Signature::new(1, 1), FuncSlice { start: 0, len: 0 }, 1);
    assert_ne!(named, other_hash);
    let other_place = Function::new(FunctionId::Named(0), Signature::new(1, 1), FuncSlice { start: 1, len: 0 }, 0);
    assert_ne!(named, other_place);
    let d = DynamicFunction { index: 3, signature: Signature::new(1, 2) };
    assert_eq!(d.signature(), Signature::new(1, 2));
}

#[test]
fn stack_swizzles_invert() {
    let swizzle = StackSwizzle {
        indices: EcoVec::from(vec![2u8, 0, 1]),
        fix: EcoVec::from(vec![false, true, false]),
    };
    assert_eq!(swizzle.args(), 3);
    assert_eq!(swizzle.signature(), Signature::new(3, 3));
    let inverse = swizzle.inverse().unwrap();
    assert_eq!(inverse.indices.as_slice(), &[1, 2, 0]);
    assert_eq!(inverse.fix.as_slice(), &[false, true, false]);
    assert_eq!(inverse.inverse().unwrap(), swizzle);
}

#[test]
fn stack_swizzles_without_inverse() {
    let twice = StackSwizzle {
        indices: EcoVec::from(vec![0u8, 0]),
        fix: EcoVec::from(vec![false, false]),
    };
    assert_eq!(twice.args(), 1);
    assert_eq!(twice.signature(), Signature::new(1, 2));
    assert_eq!(twice.inverse(), None);
    let gap = StackSwizzle {
        indices: EcoVec::from(vec![0u8, 2]),
        fix: EcoVec::from(vec![false, false]),
    };
    assert_eq!(gap.inverse(), None);
    let same_length = StackSwizzle {
        indices: EcoVec::from(vec![1u8, 1]),
        fix: EcoVec::from(vec![false, false]),
    };
    assert_eq!(same_length.inverse(), None);
    let empty = StackSwizzle { indices: EcoVec::new(), fix: EcoVec::new() };
    assert_eq!(empty.args(), 0);
    assert_eq!(empty.inverse().unwrap().indices.len(), 0);
}

#[test]
fn array_swizzle_signature() {
    let swizzle = ArraySwizzle {
        indices: EcoVec::from(vec![0i8, -1, 2]),
        unbox: EcoVec::from(vec![false, false, true]),
    };
    assert_eq!(swizzle.signature(), Signature::new(1, 3));
}

#[test]
fn pairs_convert_to_signatures_and_ranges_and_back() {
    let sig = Signature::from((2, 3));
    assert_eq!(sig, Signature::new(2, 3));
    assert!(sig == (2, 3));
    assert!(!(sig == (3, 2)));
    assert_eq!(<(usize, usize)>::from(sig), (2, 3));
    let slice = FuncSlice::from((4, 5));
    assert_eq!(slice, FuncSlice { start: 4, len: 5 });
    assert_eq!(<(usize, usize)>::from(slice), (4, 5));
    assert_eq!(FuncSlice::default(), FuncSlice { start: 0, len: 0 });
    let dynamic = DynamicFunction::from((7, sig));
    assert_eq!(dynamic, DynamicFunction { index: 7, signature: sig });
    assert_eq!(<(usize, Signature)>::from(dynamic), (7, sig));
}

#[test]
fn function_ids_are_made_of_what_they_name() {
    assert_eq!(FunctionId::from(3), FunctionId::Named(3));
    assert_eq!(FunctionId::from(Primitive::Lt), FunctionId::Primitive(Primitive::Lt));
    let span = CodeSpan { start: 1, end: 2 };
    assert_eq!(FunctionId::from(span), FunctionId::Anonymous(span));
}

#[test]
fn the_default_function_is_unnamed_and_empty() {
    let f = Function::default();
    assert_eq!(f.id, FunctionId::Unnamed);
    assert_eq!(f.signature(), Signature::new(0, 0));
    assert_eq!(f.slice(), FuncSlice::default());
    assert_eq!(f.hash, 0);
    assert_eq!(f.flags, FunctionFlags::default());
    assert!(!f.is_recursive());
}

#[test]
fn swizzles_are_written_in_letters() {
    let stack = StackSwizzle {
        indices: EcoVec::from(vec![0u8, 1, 2, 25, 26]),
        fix: EcoVec::from(vec![false, true, false, true, true]),
    };
    assert_eq!(stack.text(), "\u{3bb}aBcZ{");
    let short = StackSwizzle {
        indices: EcoVec::from(vec![1u8, 0, 2]),
        fix: EcoVec::from(vec![false]),
    };
    assert_eq!(short.text(), "\u{3bb}b");
    let array = ArraySwizzle {
        indices: EcoVec::from(vec![0i8, 1, -1, -2, 25]),
        unbox: EcoVec::from(vec![false, true, false, true, false]),
    };
    assert_eq!(array.text(), "\u{22ca}aBzYz");
    let none = ArraySwizzle { indices: EcoVec::new(), unbox: EcoVec::new() };
    assert_eq!(none.text(), "\u{22ca}");
}

#[test]
fn signatures_and_dynamic_functions_are_written() {
    assert_eq!(Signature::new(2, 1).text(), "|2");
    assert_eq!(Signature::new(2, 1).debug_text(), "|2.1");
    assert_eq!(Signature::new(0, 3).text(), "|0.3");
    assert_eq!(Signature::new(10, 0).text(), "|10.0");
    let dynamic = DynamicFunction { index: 255, signature: Signature::new(1, 1) };
    assert_eq!(dynamic.text(), "<dynamic#ff>");
    let first = DynamicFunction { index: 0, signature: Signature::new(1, 1) };
    assert_eq!(first.text(), "<dynamic#0>");
    let large = DynamicFunction { index: 0x1a2b3c, signature: Signature::new(1, 1) };
    assert_eq!(large.text(), "<dynamic#1a2b3c>");
}

#[test]
fn flags_and_ranges_change_in_place() {
    let mut flags = FunctionFlags { bits: RECURSIVE };
    flags.bitor_assign(FunctionFlags { bits: NO_INLINE });
    assert!(flags.recursive() && flags.no_inline() && !flags.no_pre_eval());
    let mut slice = FuncSlice { start: 3, len: 2 };
    slice.add_assign(4);
    assert_eq!(slice, FuncSlice { start: 7, len: 2 });
    assert_eq!(slice.end(), 9);
}

#[test]
fn swizzles_without_letters_are_not_written() {
    let far = StackSwizzle {
        indices: EcoVec::from(vec![0u8, 159]),
        fix: EcoVec::from(vec![false, false]),
    };
    assert!(!far.is_lettered());
    assert_eq!(far.checked_text(), None);
    let unflagged = StackSwizzle {
        indices: EcoVec::from(vec![0u8, 159]),
        fix: EcoVec::from(vec![true]),
    };
    assert!(unflagged.is_lettered());
    assert_eq!(unflagged.checked_text(), Some("\u{3bb}A".to_string()));
    let edge = StackSwizzle { indices: EcoVec::from(vec![158u8]), fix: EcoVec::from(vec![false]) };
    assert_eq!(edge.checked_text(), Some("\u{3bb}\u{ff}".to_string()));
    let low = ArraySwizzle {
        indices: EcoVec::from(vec![-124i8]),
        unbox: EcoVec::from(vec![false]),
    };
    assert!(!low.is_lettered());
    assert_eq!(low.checked_text(), None);
    let lowest = ArraySwizzle {
        indices: EcoVec::from(vec![-123i8, 127]),
        unbox: EcoVec::from(vec![false, false]),
    };
    assert!(lowest.is_lettered());
    assert_eq!(lowest.checked_text(), Some("\u{22ca}\u{0}\u{e0}".to_string()));
}
