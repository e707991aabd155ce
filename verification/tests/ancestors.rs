//! Ruby's order of ancestors, one small program for each rule.

use std::collections::HashMap;

use spinel_vm::{Builtin, ClassId, Heap};

const TABLE: &str = "
case an_included_module_follows_its_class
  module M
  class C
  include C M
  expect C : C M
end

case a_prepended_module_precedes_its_class
  module M
  class C
  prepend C M
  expect C : M C
end

case a_later_inclusion_comes_first
  module A
  module B
  class C
  include C A
  include C B
  expect C : C B A
end

case one_inclusion_keeps_the_order_of_its_arguments
  module A
  module B
  class C
  include C A B
  expect C : C A B
end

case three_arguments_keep_their_order
  module A
  module B
  module D
  class C
  include C A B D
  expect C : C A B D
end

case a_later_prepend_comes_first
  module A
  module B
  class C
  prepend C A
  prepend C B
  expect C : B A C
end

case one_prepend_keeps_the_order_of_its_arguments
  module A
  module B
  class C
  prepend C A B
  expect C : A B C
end

case including_twice_changes_nothing
  module M
  class C
  include C M
  include C M
  expect C : C M
end

case prepending_twice_changes_nothing
  module M
  class C
  prepend C M
  prepend C M
  expect C : M C
end

case a_class_follows_its_superclass_chain
  class P
  class C < P
  expect C : C P Object Kernel BasicObject
end

case a_superclass_has_already_included_it
  module M
  class P
  class C < P
  include P M
  include C M
  expect C : C P M
end

case a_superclass_includes_it_later
  module M
  class P
  class C < P
  include C M
  include P M
  expect C : C M P M
end

case a_module_brings_what_it_includes
  module A
  module B
  class C
  include B A
  include C B
  expect C : C B A
end

case a_module_that_includes_later_is_seen
  module A
  module B
  class C
  include C B
  include B A
  expect C : C B A
  expect B : B A
end

case a_module_that_prepends_later_is_seen
  module A
  module B
  class C
  include C B
  prepend B A
  expect C : C A B
end

case a_module_brings_what_it_prepends
  module A
  module B
  class C
  prepend B A
  include C B
  expect C : C A B
end

case a_shared_module_appears_once
  module A
  module B
  module D
  class C
  include B A
  include D A
  include C B
  include C D
  expect C : C D B A
end

case a_superclass_is_prepended_to
  module M
  class P
  class C < P
  prepend P M
  expect C : C M P
end

case a_module_of_a_superclass_includes_later
  module M
  module N
  class P
  class C < P
  include P N
  include N M
  expect C : C P N M
end

case a_module_has_no_superclass
  module M
  expect M : M
end

case everything_inherits_what_object_includes
  module M
  class C
  include Object M
  expect C : C Object M Kernel BasicObject
  expect Integer : Integer Numeric Comparable Object M Kernel BasicObject
end

case singletons_follow_the_superclasses
  class A
  class B < A
  singleton B SB
  singleton A SA
  expect SB : SB SA
end

case a_singleton_includes_a_module
  module M
  class C
  singleton C S
  include S M
  expect S : S M
  expect C : C
end

case a_singleton_ends_in_class
  class C
  singleton C S
  expect S : S Class Module Object Kernel BasicObject
end

case a_chain_of_modules
  module A
  module B
  module D
  module E
  class C
  include B A
  include D B
  include E D
  include C E
  expect C : C E D B A
end
";

/// One case: what it declares, in order, and the lines to run.
struct Case<'a> {
    name: &'a str,
    ops: Vec<(usize, Vec<&'a str>)>,
    entities: Vec<&'a str>,
}

fn parse(text: &str) -> Vec<Case<'_>> {
    let mut cases = Vec::new();
    let mut current: Option<Case<'_>> = None;
    for (index, raw) in text.lines().enumerate() {
        let line = raw.split('#').next().unwrap_or("").trim();
        if line.is_empty() {
            continue;
        }
        let words: Vec<&str> = line.split_whitespace().collect();
        let lineno = index + 1;
        match words[0] {
            "case" => {
                assert!(current.is_none(), "line {lineno}: nested case");
                current = Some(Case {
                    name: words[1],
                    ops: Vec::new(),
                    entities: Vec::new(),
                });
            }
            "end" => cases.push(current.take().expect("`end` without `case`")),
            verb => {
                let case = current.as_mut().expect("a line outside a case");
                match verb {
                    "module" | "class" => case.entities.push(words[1]),
                    "singleton" => case.entities.push(words[2]),
                    _ => {}
                }
                case.ops.push((lineno, words));
            }
        }
    }
    assert!(current.is_none(), "unterminated case");
    cases
}

#[test]
fn spinel_agrees_with_the_ruby_ancestors_table() {
    let cases = parse(TABLE);
    assert!(cases.len() > 20, "the table lost its cases: {}", cases.len());
    let mut checked = 0;

    for case in &cases {
        let mut scope = Heap::new().scope();
        scope.bootstrap();

        let mut env: HashMap<&str, ClassId> = Builtin::all()
            .into_iter()
            .map(|builtin| (builtin.name(), builtin.id()))
            .collect();

        for (lineno, words) in &case.ops {
            let at = format!("line {lineno} ({})", case.name);
            let get = |env: &HashMap<&str, ClassId>, name: &str| -> ClassId {
                *env.get(name)
                    .unwrap_or_else(|| panic!("{at}: {name} is not declared"))
            };
            match words[0] {
                "module" => {
                    let id = scope.define_module(Some(words[1]));
                    env.insert(words[1], id);
                }
                "class" => {
                    let superclass = if words.get(2) == Some(&"<") {
                        get(&env, words[3])
                    } else {
                        Builtin::Object.id()
                    };
                    let id = scope.define_class(Some(words[1]), Some(superclass));
                    env.insert(words[1], id);
                }
                "singleton" => {
                    let id = scope.singleton_class(get(&env, words[1]));
                    env.insert(words[2], id);
                }
                verb @ ("include" | "prepend") => {
                    let target = get(&env, words[1]);
                    // Several arguments are applied right to left.
                    for name in words[2..].iter().rev() {
                        let module = get(&env, name);
                        let result = if verb == "include" {
                            scope.classes_mut().include_module(target, module)
                        } else {
                            scope.classes_mut().prepend(target, module)
                        };
                        result.unwrap_or_else(|e| panic!("{at}: {verb} {name}: {}", e.message()));
                    }
                }
                "expect" => {
                    let target = get(&env, words[1]);
                    assert_eq!(words[2], ":", "{at}: expected `:`");
                    let want = &words[3..];
                    // Only what this case is about: everything it declared,
                    // and any builtin the expectation names itself.
                    let keep: Vec<ClassId> = case
                        .entities
                        .iter()
                        .chain(want.iter().filter(|n| Builtin::from_name(n).is_some()))
                        .map(|name| get(&env, name))
                        .collect();
                    let label: HashMap<ClassId, &str> =
                        env.iter().map(|(&name, &id)| (id, name)).collect();
                    let got: Vec<&str> = scope
                        .classes()
                        .ancestors(target)
                        .into_iter()
                        .filter(|id| keep.contains(id))
                        .map(|id| label[&id])
                        .collect();
                    assert_eq!(got, *want, "{at}: {} ancestors", words[1]);
                    checked += 1;
                }
                verb => panic!("{at}: unknown verb {verb:?}"),
            }
        }
    }

    assert!(
        checked >= cases.len(),
        "{checked} expectations for {} cases",
        cases.len()
    );
}
