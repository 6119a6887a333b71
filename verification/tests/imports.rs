use first_rust::imports::{
    can_rewrite_imports, can_rewrite_imports_single_line, get_new_import_line, rewrite_imports,
    rewrite_imports_single_line,
};

const SOURCE: &str = "pragma solidity ^0.8.0;
import \"./Foo.sol\";
import {A, B} from '../lib/Bar.sol';
import \"@openzeppelin/contracts/token/ERC20/ERC20.sol\";
import {
    C,
    D
} from \"./utils/Baz.sol\";
contract X {}";

#[test]
fn new_import_line_double_quote() {
    assert_eq!(get_new_import_line("Foo.sol\";".to_string()), " \"../Foo.sol\";");
}

#[test]
fn new_import_line_single_quote() {
    assert_eq!(get_new_import_line("Bar.sol';".to_string()), " '../Bar.sol';");
}

#[test]
fn new_import_line_other_closing() {
    // Anything but a double quote before the last character counts as a single quote.
    assert_eq!(get_new_import_line("ab".to_string()), " '../ab");
}

#[test]
fn rewrite_relative_package_and_block_imports() {
    assert!(can_rewrite_imports(SOURCE));
    let lines = rewrite_imports(SOURCE);
    assert_eq!(
        lines,
        vec![
            "pragma solidity ^0.8.0;",
            "import \"../Foo.sol\";",
            "import {A, B} from '../Bar.sol';",
            "import \"@openzeppelin/contracts/token/ERC20/ERC20.sol\";",
            "import { C, D } from \"../Baz.sol\";",
            "contract X {}",
        ]
    );
}

#[test]
fn rewrite_keeps_source_without_imports() {
    let source = "pragma solidity ^0.8.0;\ncontract X {\n    uint a;\n}\n";
    assert!(can_rewrite_imports(source));
    let lines = rewrite_imports(source);
    assert_eq!(lines, vec!["pragma solidity ^0.8.0;", "contract X {", "    uint a;", "}", ""]);
    assert_eq!(lines.join("\n"), source);
}

#[test]
fn rewrite_never_adds_lines() {
    let lines = rewrite_imports(SOURCE);
    assert!(lines.len() <= SOURCE.split('\n').count());
}

#[test]
fn rewrite_unfinished_block_writes_nothing() {
    let lines = rewrite_imports("import {\n    A\n");
    assert!(lines.is_empty());
}

#[test]
fn rewrite_block_import_of_package_kept_whole() {
    let lines = rewrite_imports("import {\n  Ownable\n} from \"@openzeppelin/contracts/access/Ownable.sol\";");
    assert_eq!(lines, vec!["import { Ownable } from \"@openzeppelin/contracts/access/Ownable.sol\";"]);
}

#[test]
fn rewrite_not_defined_on_short_file_name() {
    assert!(!can_rewrite_imports("import x"));
    assert!(!can_rewrite_imports("pragma solidity ^0.8.0;\nimport ./aé"));
    assert!(can_rewrite_imports("import \"./é\";"));
    assert!(can_rewrite_imports("import \"@x\""));
}

#[test]
fn single_line_rewrite_of_relative_imports() {
    let source = "pragma solidity ^0.8.0;
import \"./Foo.sol\";
import \"@openzeppelin/contracts/access/Ownable.sol\";
import \"../interfaces/IBar.sol\";
contract X {}";
    assert!(can_rewrite_imports_single_line(source));
    assert_eq!(
        rewrite_imports_single_line(source),
        vec![
            "pragma solidity ^0.8.0;",
            "import \"../Foo.sol\";",
            "import \"@openzeppelin/contracts/access/Ownable.sol\";",
            "import \"../IBar.sol\";",
            "contract X {}",
        ]
    );
}

#[test]
fn single_line_rewrite_one_line_per_line() {
    let source = "a\nimport \"./A.sol\";\n\nb";
    let lines = rewrite_imports_single_line(source);
    assert_eq!(lines.len(), source.split('\n').count());
    assert_eq!(lines, vec!["a", "import \"../A.sol\";", "", "b"]);
}

#[test]
fn single_line_rewrite_two_byte_character() {
    // The last two bytes are one character here.
    assert_eq!(rewrite_imports_single_line("import \"é"), vec!["import \"../\"\";"]);
}

#[test]
fn single_line_rewrite_not_defined() {
    assert!(!can_rewrite_imports_single_line("import"));
    assert!(!can_rewrite_imports_single_line("import {"));
    assert!(!can_rewrite_imports_single_line("import \"€"));
    assert!(can_rewrite_imports_single_line("important {"));
}

#[test]
fn rewriting_rewritten_imports_keeps_them() {
    let source = "import \"./Foo.sol\";\nimport {A} from '../lib/Bar.sol';\nuint x;";
    let once = rewrite_imports(source);
    assert_eq!(once, vec!["import \"../Foo.sol\";", "import {A} from '../Bar.sol';", "uint x;"]);
    let again = once.join("\n");
    assert!(can_rewrite_imports(&again));
    assert_eq!(rewrite_imports(&again), once);
}
