use bfint::interpret;
use bfint::interpret_instructions;
use bfint::parse_into_instructions;
use bfint::clean_code;
use bfint::get_lexems;
use bfint::lex_permissive;
use bfint::InterpreterError;
use bfint::Lexem;

#[test]
fn test_all_lexemes_parsing() {
    let result_vec = get_lexems(".,+-><[]".as_bytes().to_vec()).unwrap();
    let expected_vec = vec![
        Lexem::WriteOperation,
        Lexem::ReadOperation,
        Lexem::IncrementValue,
        Lexem::DecrementValue,
        Lexem::IncrementPointer,
        Lexem::DecrementPointer,
        Lexem::LoopBegining,
        Lexem::LoopEnding,
    ];

    assert_eq!(result_vec, expected_vec);
}

#[test]
fn test_clean_code() {
    assert_eq!(
        clean_code(". ,+->1< [ + -] ".as_bytes().to_owned()),
        ".,+->1<[+-]".as_bytes()
    );
    assert_eq!(
        clean_code(". \n ,+->1< [ + -] ".as_bytes().to_owned()),
        ".,+->1<[+-]".as_bytes()
    );

    assert_eq!(
        clean_code("// Example\n.,+->1< [ + -] ".as_bytes().to_owned()),
        ".,+->1<[+-]".as_bytes()
    );
}

#[test]
fn test_syntax_error() {
    let result = get_lexems(".,+->1<[]".as_bytes().to_vec());
    assert!(matches!(result, Err(InterpreterError::SyntaxError(b'1', 5))));

    let result = get_lexems(".,+->b<[]".as_bytes().to_vec());
    assert!(matches!(result, Err(InterpreterError::SyntaxError(b'b', 5))));

    let result = get_lexems(".,+-> b<[]".as_bytes().to_vec());
    assert!(matches!(result, Err(InterpreterError::SyntaxError(b' ', 5))));
}

#[test]
fn test_memory_manupulation() {
    let instructions = parse_into_instructions(
        &get_lexems("+++++++[>++[>+++++<-]<-]>>++<++<+".as_bytes().to_vec()).unwrap(),
    )
    .unwrap();
    let mut memory = vec![0u8; 256];
    let mut data_ptr: u8 = 0;
    let mut output: Vec<u8> = Vec::new();
    let input: Vec<u8> = Vec::new();
    let mut in_pos: usize = 0;
    let mut budget: u64 = 1_000_000;

    let result = interpret_instructions(
        &instructions,
        &mut memory,
        &mut data_ptr,
        &mut output,
        &input,
        &mut in_pos,
        &mut budget,
    );

    assert!(result.is_ok());
    let expected_memory = [1u8, 2u8, 72u8];
    assert_eq!(&memory[0..3], &expected_memory);
}

#[test]
fn test_interpretor_write() {
    let output = interpret(
        "--<-<<+[+[<+>--->->->-<<<]>]<<--.<++++++.<<-..<<.<+.>>.>>.<<<.+++.>>.>>-.<<<+."
            .as_bytes()
            .to_vec(),
        &[],
    )
    .unwrap();

    assert_eq!(output, b"Hello, World!".to_vec());
}

#[test]
fn test_loop_end_without_begin_error() {
    let result = parse_into_instructions(&get_lexems("]".as_bytes().to_vec()).unwrap());
    assert!(matches!(result, Err(InterpreterError::UnmatchedLoopEnd(0))));
}

#[test]
fn test_loop_without_end() {
    let result = parse_into_instructions(&get_lexems("[".as_bytes().to_vec()).unwrap());
    assert!(matches!(result, Err(InterpreterError::UnmatchedLoopBegin(0))));
}

#[test]
fn test_unmatched_bracket_offsets() {
    let result = parse_into_instructions(&get_lexems("++]".as_bytes().to_vec()).unwrap());
    assert!(matches!(result, Err(InterpreterError::UnmatchedLoopEnd(2))));

    let result = parse_into_instructions(&get_lexems("+[+[]".as_bytes().to_vec()).unwrap());
    assert!(matches!(result, Err(InterpreterError::UnmatchedLoopBegin(1))));
}

#[test]
fn test_permissive_lexing_drops_other_bytes() {
    let tokens = lex_permissive("a+ b- c[x]\n".as_bytes().to_vec());
    let expected = vec![
        Lexem::IncrementValue,
        Lexem::DecrementValue,
        Lexem::LoopBegining,
        Lexem::LoopEnding,
    ];
    assert_eq!(tokens, expected);
}

#[test]
fn test_permissive_lexing_keeps_source_order() {
    let tokens = lex_permissive(">hello<world.".as_bytes().to_vec());
    let expected = vec![
        Lexem::IncrementPointer,
        Lexem::DecrementPointer,
        Lexem::WriteOperation,
    ];
    assert_eq!(tokens, expected);
}

#[test]
fn test_parse_idempotent() {
    let lexems = get_lexems("+[->+<][.]".as_bytes().to_vec()).unwrap();
    let first = parse_into_instructions(&lexems).unwrap();
    let second = parse_into_instructions(&lexems).unwrap();
    assert_eq!(first, second);
}

#[test]
fn test_pointer_increment_wraps() {
    let instructions = parse_into_instructions(&get_lexems(">".as_bytes().to_vec()).unwrap()).unwrap();
    let mut memory = vec![0u8; 256];
    let mut data_ptr: u8 = 255;
    let mut output: Vec<u8> = Vec::new();
    let input: Vec<u8> = Vec::new();
    let mut in_pos: usize = 0;
    let mut budget: u64 = 100;

    let result = interpret_instructions(
        &instructions,
        &mut memory,
        &mut data_ptr,
        &mut output,
        &input,
        &mut in_pos,
        &mut budget,
    );

    assert!(result.is_ok());
    assert_eq!(data_ptr, 0);
}

#[test]
fn test_pointer_decrement_wraps() {
    let instructions = parse_into_instructions(&get_lexems("<".as_bytes().to_vec()).unwrap()).unwrap();
    let mut memory = vec![0u8; 256];
    let mut data_ptr: u8 = 0;
    let mut output: Vec<u8> = Vec::new();
    let input: Vec<u8> = Vec::new();
    let mut in_pos: usize = 0;
    let mut budget: u64 = 100;

    let result = interpret_instructions(
        &instructions,
        &mut memory,
        &mut data_ptr,
        &mut output,
        &input,
        &mut in_pos,
        &mut budget,
    );

    assert!(result.is_ok());
    assert_eq!(data_ptr, 255);
}

#[test]
fn test_cell_arithmetic_wraps() {
    let decrement = parse_into_instructions(&get_lexems("-".as_bytes().to_vec()).unwrap()).unwrap();
    let mut memory = vec![0u8; 256];
    let mut data_ptr: u8 = 0;
    let mut output: Vec<u8> = Vec::new();
    let input: Vec<u8> = Vec::new();
    let mut in_pos: usize = 0;
    let mut budget: u64 = 100;

    let result = interpret_instructions(
        &decrement,
        &mut memory,
        &mut data_ptr,
        &mut output,
        &input,
        &mut in_pos,
        &mut budget,
    );
    assert!(result.is_ok());
    assert_eq!(memory[0], 255);

    let increment = parse_into_instructions(&get_lexems("+".as_bytes().to_vec()).unwrap()).unwrap();
    let result = interpret_instructions(
        &increment,
        &mut memory,
        &mut data_ptr,
        &mut output,
        &input,
        &mut in_pos,
        &mut budget,
    );
    assert!(result.is_ok());
    assert_eq!(memory[0], 0);
}

#[test]
fn test_zero_guard_loop_leaves_tape_unchanged() {
    let instructions =
        parse_into_instructions(&get_lexems("[+>+<.]".as_bytes().to_vec()).unwrap()).unwrap();
    let mut memory = vec![0u8; 256];
    let mut data_ptr: u8 = 0;
    let mut output: Vec<u8> = Vec::new();
    let input: Vec<u8> = Vec::new();
    let mut in_pos: usize = 0;
    let mut budget: u64 = 100;

    let result = interpret_instructions(
        &instructions,
        &mut memory,
        &mut data_ptr,
        &mut output,
        &input,
        &mut in_pos,
        &mut budget,
    );

    assert!(result.is_ok());
    assert_eq!(memory, vec![0u8; 256]);
    assert_eq!(data_ptr, 0);
    assert!(output.is_empty());
}

#[test]
fn test_read_stores_input_byte() {
    let output = interpret(",.".as_bytes().to_vec(), b"A").unwrap();
    assert_eq!(output, b"A".to_vec());
}

#[test]
fn test_input_exhausted() {
    let result = interpret(",".as_bytes().to_vec(), &[]);
    assert!(matches!(result, Err(InterpreterError::InputExhausted)));
}

#[test]
fn test_interpret_reports_syntax_error_after_cleaning() {
    let result = interpret("// intro\n+x+".as_bytes().to_vec(), &[]);
    assert!(matches!(result, Err(InterpreterError::SyntaxError(b'x', 1))));
}

#[test]
fn test_interpret_reports_unmatched_brackets() {
    let result = interpret("+]".as_bytes().to_vec(), &[]);
    assert!(matches!(result, Err(InterpreterError::UnmatchedLoopEnd(1))));

    let result = interpret("[+".as_bytes().to_vec(), &[]);
    assert!(matches!(result, Err(InterpreterError::UnmatchedLoopBegin(0))));
}

#[test]
fn test_steps_exhausted_on_tiny_budget() {
    let instructions = parse_into_instructions(&get_lexems("+[]".as_bytes().to_vec()).unwrap()).unwrap();
    let mut memory = vec![0u8; 256];
    let mut data_ptr: u8 = 0;
    let mut output: Vec<u8> = Vec::new();
    let input: Vec<u8> = Vec::new();
    let mut in_pos: usize = 0;
    let mut budget: u64 = 5;

    let result = interpret_instructions(
        &instructions,
        &mut memory,
        &mut data_ptr,
        &mut output,
        &input,
        &mut in_pos,
        &mut budget,
    );

    assert!(matches!(result, Err(InterpreterError::StepsExhausted)));
    assert_eq!(budget, 0);
}

#[test]
fn test_clean_code_empty_and_comment_only() {
    assert_eq!(clean_code(Vec::new()), Vec::<u8>::new());
    assert_eq!(clean_code("// nothing here".as_bytes().to_vec()), Vec::<u8>::new());
    assert_eq!(clean_code("//a\n//b\n".as_bytes().to_vec()), Vec::<u8>::new());
}

#[test]
fn test_clean_code_strips_tabs_and_carriage_returns() {
    assert_eq!(clean_code("\t+\r- .\t".as_bytes().to_vec()), "+-.".as_bytes());
    assert_eq!(clean_code("+\r\n-".as_bytes().to_vec()), "+-".as_bytes());
    let output = interpret("\t+ .\r".as_bytes().to_vec(), &[]).unwrap();
    assert_eq!(output, vec![1u8]);
}

#[test]
fn test_interpret_empty_program() {
    let output = interpret(Vec::new(), &[]).unwrap();
    assert!(output.is_empty());
}

#[test]
fn test_nested_loops_multiply() {
    // 3 * 4 by repeated addition: cell 2 ends at 12, written out once.
    let output = interpret("+++[>++++[>+<-]<-]>>.".as_bytes().to_vec(), &[]).unwrap();
    assert_eq!(output, vec![12u8]);
}
