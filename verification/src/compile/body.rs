//! Bodies of their own, and their parameters.

use vstd::prelude::*;

use crate::ast::{
    Class, Def, Expr, KeywordParam, KeywordRest, Module, MultiTarget, Name, OptionalParam, ParamList,
    Params, RequiredParam, SingletonClass, Span, Target, TargetKind, VarRef,
};
use crate::bytecode;
use crate::bytecode::{ClassDef, ConstScope, DefKind, Insn, Keyword, Optional, ParamSpec};
use crate::compile::assign;
use crate::compile::assign::Slot;
use crate::compile::code;
use crate::compile::code::{Code, Compiler, Jump, ParamModel, Unsupported, Zsuper};
use crate::compile::expr;
use crate::compile::lower;
use crate::compile::lower::IT;

verus! {

impl Compiler {
    /// A method definition.
    pub(crate) fn def_expr(&mut self, def: &Def, span: Span) -> (r: Result<(), Unsupported>)
        ensures
            expr::done(r, final(self)@, lower::lower_def(old(self)@, *def, span)),
            expr::tidied(old(self)@, final(self)@, r is Ok),
        decreases *def, 0nat,
    {
        let mut child = match self.child_head(def.name.as_str(), &def.params, &def.locals, true, span) {
            Ok(v) => v,
            Err(u) => {
                return Err(u);
            },
        };
        if let Err(u) = child.statements(&def.body, true) {
            return Err(u);
        }
        let name = self.symbol(def.name.as_str());
        let index = self.push_child(child.finish());
        let definition = self.push_definition(name, index);
        match &def.receiver {
            Some(receiver) => {
                if let Err(u) = self.expr(receiver) {
                    return Err(u);
                }
                self.emit(Insn::DefineSingleton(definition));
            },
            None => self.emit(Insn::DefineMethod(definition)),
        }
        Ok(())
    }

    /// The path of a class: its symbol, and whether what it is in was pushed.
    fn class_path(&mut self, path: &Target) -> (r: Result<(u32, bool), Unsupported>)
        ensures
            match r {
                Ok((name, scoped)) => lower::lower_class_path(old(self)@, *path) == Ok::<
                    (Code, u32, bool),
                    Unsupported,
                >((final(self)@, name, scoped)),
                Err(u) => lower::lower_class_path(old(self)@, *path) == Err::<
                    (Code, u32, bool),
                    Unsupported,
                >(u),
            },
            expr::tidied(old(self)@, final(self)@, r is Ok),
        decreases *path, 2nat,
    {
        let (symbol, how) = match self.const_target(path) {
            Ok(v) => v,
            Err(u) => {
                return Err(u);
            },
        };
        match how {
            ConstScope::Lexical => Ok((symbol, false)),
            ConstScope::Qualified => Ok((symbol, true)),
            ConstScope::Top => {
                let object = self.symbol("Object");
                self.emit(Insn::GetConst(object, ConstScope::Top));
                Ok((symbol, true))
            },
        }
    }

    /// Open a class, with its compiled body.
    fn open_class(
        &mut self,
        body: Compiler,
        name: u32,
        kind: DefKind,
        scoped: bool,
        superclass: bool,
    )
        ensures
            final(self)@ == lower::opened(old(self)@, body@, name, kind, scoped, superclass),
            expr::tidied(old(self)@, final(self)@, true),
    {
        let child = self.push_child(body.finish());
        let index = self.push_class_def(ClassDef { name, body: child, kind, scoped, superclass });
        self.emit(Insn::OpenClass(index));
    }

    /// The start of a body without parameters that sees nothing around it.
    fn plain_head(label: &str, locals: &Vec<Name>) -> (r: Compiler)
        ensures
            r@ == lower::plain_head(label@, bytecode::pool(locals@)),
    {
        let mut child = Compiler::new(label, locals);
        let params = ParamSpec::default();
        assert(params@ =~= code::no_params());
        let none: Vec<KeywordParam> = Vec::new();
        assert(none@ =~= Seq::empty());
        child.set_zsuper(forwards(&params, &none));
        child
    }

    /// `class`.
    pub(crate) fn class_expr(&mut self, class: &Class) -> (r: Result<(), Unsupported>)
        ensures
            expr::done(r, final(self)@, lower::lower_class(old(self)@, *class)),
            expr::tidied(old(self)@, final(self)@, r is Ok),
        decreases *class, 0nat,
    {
        let (name, scoped) = match self.class_path(&class.path) {
            Ok(v) => v,
            Err(u) => {
                return Err(u);
            },
        };
        if let Some(superclass) = &class.superclass {
            if let Err(u) = self.expr(superclass) {
                return Err(u);
            }
        }
        let mut child = Compiler::plain_head("<class>", &class.locals);
        if let Err(u) = child.statements(&class.body, true) {
            return Err(u);
        }
        self.open_class(child, name, DefKind::Class, scoped, class.superclass.is_some());
        Ok(())
    }

    /// `module`.
    pub(crate) fn module_expr(&mut self, module: &Module) -> (r: Result<(), Unsupported>)
        ensures
            expr::done(r, final(self)@, lower::lower_module(old(self)@, *module)),
            expr::tidied(old(self)@, final(self)@, r is Ok),
        decreases *module, 0nat,
    {
        let (name, scoped) = match self.class_path(&module.path) {
            Ok(v) => v,
            Err(u) => {
                return Err(u);
            },
        };
        let mut child = Compiler::plain_head("<module>", &module.locals);
        if let Err(u) = child.statements(&module.body, true) {
            return Err(u);
        }
        self.open_class(child, name, DefKind::Module, scoped, false);
        Ok(())
    }

    /// `class << obj`.
    pub(crate) fn singleton_expr(&mut self, node: &SingletonClass) -> (r: Result<(), Unsupported>)
        ensures
            expr::done(r, final(self)@, lower::lower_singleton(old(self)@, *node)),
            expr::tidied(old(self)@, final(self)@, r is Ok),
        decreases *node, 0nat,
    {
        if let Err(u) = self.expr(&node.expression) {
            return Err(u);
        }
        let mut child = Compiler::plain_head("<singleton class>", &node.locals);
        if let Err(u) = child.statements(&node.body, true) {
            return Err(u);
        }
        self.open_class(child, 0, DefKind::Singleton, false, false);
        Ok(())
    }

    /// The start of a body.
    pub(crate) fn child_head(
        &self,
        name: &str,
        params: &Params,
        locals: &Vec<Name>,
        barrier: bool,
        span: Span,
    ) -> (r: Result<Compiler, Unsupported>)
        ensures
            match r {
                Ok(child) => lower::child_head(
                    self@,
                    name@,
                    *params,
                    bytecode::pool(locals@),
                    barrier,
                    span,
                ) == Ok::<Code, Unsupported>(child@),
                Err(u) => lower::child_head(
                    self@,
                    name@,
                    *params,
                    bytecode::pool(locals@),
                    barrier,
                    span,
                ) == Err::<Code, Unsupported>(u),
            },
        decreases *params, 1nat,
    {
        let mut child = Compiler::nested(name, locals, self, barrier);
        let spec = match child.lower_params(params, span) {
            Ok(v) => v,
            Err(u) => {
                return Err(u);
            },
        };
        if barrier {
            let none: Vec<KeywordParam> = Vec::new();
            assert(none@ =~= Seq::empty());
            let forward = match params {
                Params::Explicit(list) => forwards(&spec, &list.keywords),
                _ => forwards(&spec, &none),
            };
            child.set_zsuper(forward);
        }
        child.set_params(spec);
        if let Err(u) = child.emit_defaults(params, span) {
            return Err(u);
        }
        Ok(child)
    }

    /// The parameters of a body.
    fn lower_params(&mut self, params: &Params, span: Span) -> (r: Result<ParamSpec, Unsupported>)
        ensures
            match r {
                Ok(spec) => lower::lower_params(old(self)@, *params, span) == Ok::<
                    (Code, ParamModel),
                    Unsupported,
                >((final(self)@, spec@)) && spec@.keywords.len() <= lower::keyword_params(
                    *params,
                ).len(),
                Err(u) => lower::lower_params(old(self)@, *params, span) == Err::<
                    (Code, ParamModel),
                    Unsupported,
                >(u),
            },
            expr::tidied(old(self)@, final(self)@, r is Ok),
    {
        match params {
            Params::Absent => {
                let spec = ParamSpec::default();
                assert(spec@ =~= code::no_params());
                Ok(spec)
            },
            Params::Explicit(list) => self.spec_from_list(list, span),
            Params::Numbered(highest) => {
                let ghost c = self@;
                let mut i: u16 = 1;
                while i <= *highest as u16
                    invariant
                        1 <= i <= *highest as u16 + 1,
                        expr::tidied(c, self@, true),
                        lower::numbered_slots(self@, i as nat, *highest as nat)
                            == lower::numbered_slots(c, 1, *highest as nat),
                    decreases *highest as u16 + 1 - i,
                {
                    let name = code::hidden_name("_", i as usize);
                    self.slot(name.as_str());
                    i = i + 1;
                }
                let mut spec = ParamSpec::default();
                spec.required = *highest as u16;
                proof {
                    assert(spec@ =~= (ParamModel {
                        required: *highest as u16,
                        ..code::no_params()
                    }));
                }
                Ok(spec)
            },
            Params::It => {
                self.slot(IT);
                let mut spec = ParamSpec::default();
                spec.required = 1;
                assert(spec@ =~= (ParamModel { required: 1, ..code::no_params() }));
                Ok(spec)
            },
        }
    }

    /// A parameter list.
    fn spec_from_list(&mut self, list: &ParamList, span: Span) -> (r: Result<
        ParamSpec,
        Unsupported,
    >)
        ensures
            match r {
                Ok(spec) => lower::lower_param_list(old(self)@, *list, span) == Ok::<
                    (Code, ParamModel),
                    Unsupported,
                >((final(self)@, spec@)) && spec@.keywords.len() == list.keywords@.len(),
                Err(u) => lower::lower_param_list(old(self)@, *list, span) == Err::<
                    (Code, ParamModel),
                    Unsupported,
                >(u),
            },
            expr::tidied(old(self)@, final(self)@, r is Ok),
    {
        let most: usize = u16::MAX as usize;
        if list.required.len() > most || list.optional.len() > most || list.posts.len() > most
            || list.keywords.len() > most {
            return code::refuse("a parameter list this long", span);
        }
        let collects = match &list.keyword_rest {
            Some(KeywordRest::Forbidden) | None => false,
            _ => true,
        };
        let posts_end = list.keywords.len() == 0 && !collects && list.block.is_none();
        let required_end = list.optional.len() == 0 && list.rest.is_none() && list.posts.len() == 0
            && posts_end;
        if let Err(u) = self.required_params(&list.required, 0, required_end, span) {
            return Err(u);
        }
        let mut at: usize = list.required.len();
        let optional = self.optional_params(&list.optional, at);
        at = at + list.optional.len();
        let rest: Option<u16> = match &list.rest {
            Some(rest) => {
                let slot: u16 = match &rest.name {
                    Some(name) => self.param_slot(name.as_str(), at),
                    None => self.param_slot("*", at),
                };
                at = at + 1;
                Some(slot)
            },
            None => None,
        };
        if let Err(u) = self.required_params(&list.posts, at, posts_end, span) {
            return Err(u);
        }
        at = at + list.posts.len();
        let keywords = self.keyword_params(&list.keywords, at);
        at = at + list.keywords.len();
        let mut no_keywords = false;
        let kwrest: Option<u16> = match &list.keyword_rest {
            Some(KeywordRest::Named(name)) => {
                let slot: u16 = match name {
                    Some(name) => self.param_slot(name.as_str(), at),
                    None => self.param_slot("**", at),
                };
                at = at + 1;
                Some(slot)
            },
            Some(KeywordRest::Forbidden) => {
                no_keywords = true;
                None
            },
            Some(KeywordRest::Forwarding) => {
                return code::refuse("argument forwarding", span);
            },
            None => None,
        };
        let block: Option<u16> = match &list.block {
            Some(block) => Some(
                match &block.name {
                    Some(name) => self.param_slot(name.as_str(), at),
                    None => self.param_slot("&", at),
                },
            ),
            None => None,
        };
        self.block_locals(&list.locals);
        let required: usize = list.required.len();
        let post: usize = list.posts.len();
        Ok(
            ParamSpec {
                required: required as u16,
                optional,
                rest,
                post: post as u16,
                keywords,
                block,
                kwrest,
                no_keywords,
            },
        )
    }

    /// The slots of required parameters, which are the last ones or not.
    fn required_params(&mut self, params: &Vec<RequiredParam>, at: usize, last: bool, span: Span) -> (r:
        Result<(), Unsupported>)
        requires
            at <= 0x4_0000,
            params@.len() <= u16::MAX,
        ensures
            expr::done(
                r,
                final(self)@,
                lower::required_slots(old(self)@, params@, 0, at as nat, last, span),
            ),
            expr::tidied(old(self)@, final(self)@, r is Ok),
    {
        let ghost c = self@;
        let mut i: usize = 0;
        while i < params.len()
            invariant
                i <= params.len(),
                at <= 0x4_0000,
                params@.len() <= u16::MAX,
                c == old(self)@,
                expr::tidied(c, self@, true),
                lower::required_slots(self@, params@, i as nat, (at + i) as nat, last, span)
                    == lower::required_slots(c, params@, 0, at as nat, last, span),
            decreases params.len() - i,
        {
            match &params[i] {
                RequiredParam::Named(name) => {
                    self.param_slot(name.as_str(), at + i);
                },
                RequiredParam::Destructure(multi) => {
                    if !last || i + 1 < params.len() {
                        return code::refuse("a destructuring parameter", span);
                    }
                    let mut names: Vec<String> = Vec::new();
                    assert(bytecode::pool(names@) =~= Seq::empty());
                    collect_names(multi, &mut names);
                    if names.len() == 0 {
                        return code::refuse(
                            "a destructuring block parameter that binds no name",
                            span,
                        );
                    }
                    let most: usize = u16::MAX as usize;
                    if names.len() > most || at + i > most - names.len() {
                        return code::refuse("a parameter list this long", span);
                    }
                    self.claim(&names, at + i);
                    return Ok(());
                },
            }
            i += 1;
        }
        Ok(())
    }

    /// The slots of several names, one after the other.
    fn claim(&mut self, names: &Vec<String>, at: usize)
        requires
            0 < names@.len() <= u16::MAX,
            at <= u16::MAX,
        ensures
            final(self)@ == lower::claimed(old(self)@, bytecode::pool(names@), 0, at as nat),
            expr::tidied(old(self)@, final(self)@, true),
    {
        let ghost c = self@;
        let ghost all = bytecode::pool(names@);
        assert(all[0] == names@[0]@);
        self.param_slot(names[0].as_str(), at);
        let mut i: usize = 1;
        while i < names.len()
            invariant
                1 <= i <= names.len(),
                names@.len() <= u16::MAX,
                at <= u16::MAX,
                all == bytecode::pool(names@),
                expr::tidied(c, self@, true),
                lower::claimed(self@, all, i as nat, at as nat) == lower::claimed(
                    c,
                    all,
                    0,
                    at as nat,
                ),
            decreases names.len() - i,
        {
            assert(all[i as int] == names@[i as int]@);
            self.param_slot(names[i].as_str(), at + i);
            i += 1;
        }
    }

    /// The slots of optional parameters.
    fn optional_params(&mut self, params: &Vec<OptionalParam>, at: usize) -> (r: Vec<Optional>)
        requires
            at + params@.len() <= usize::MAX,
        ensures
            (final(self)@, r@) == lower::optional_slots(
                old(self)@,
                params@,
                0,
                at as nat,
                Seq::empty(),
            ),
            expr::tidied(old(self)@, final(self)@, true),
    {
        let ghost c = self@;
        let mut found: Vec<Optional> = Vec::new();
        assert(found@ =~= Seq::empty());
        let mut i: usize = 0;
        while i < params.len()
            invariant
                i <= params.len(),
                at + params@.len() <= usize::MAX,
                expr::tidied(c, self@, true),
                lower::optional_slots(self@, params@, i as nat, (at + i) as nat, found@)
                    == lower::optional_slots(c, params@, 0, at as nat, Seq::empty()),
            decreases params.len() - i,
        {
            let slot: u16 = self.param_slot(params[i].name.as_str(), at + i);
            found.push(Optional { slot });
            i += 1;
        }
        found
    }

    /// The slots of keyword parameters.
    fn keyword_params(&mut self, params: &Vec<KeywordParam>, at: usize) -> (r: Vec<Keyword>)
        requires
            at + params@.len() <= usize::MAX,
        ensures
            (final(self)@, r@) == lower::keyword_slots(
                old(self)@,
                params@,
                0,
                at as nat,
                Seq::empty(),
            ),
            r@.len() == params@.len(),
            expr::tidied(old(self)@, final(self)@, true),
    {
        let ghost c = self@;
        let mut found: Vec<Keyword> = Vec::new();
        assert(found@ =~= Seq::empty());
        let mut i: usize = 0;
        while i < params.len()
            invariant
                i <= params.len(),
                found@.len() == i,
                at + params@.len() <= usize::MAX,
                expr::tidied(c, self@, true),
                lower::keyword_slots(self@, params@, i as nat, (at + i) as nat, found@)
                    == lower::keyword_slots(c, params@, 0, at as nat, Seq::empty()),
            decreases params.len() - i,
        {
            let slot: u16 = self.param_slot(params[i].name.as_str(), at + i);
            let name = self.symbol(params[i].name.as_str());
            let required = params[i].default.is_none();
            found.push(Keyword { name, slot, required });
            i += 1;
        }
        found
    }

    /// The slots of block-local names.
    fn block_locals(&mut self, locals: &Vec<Name>)
        ensures
            final(self)@ == lower::slots_of(old(self)@, bytecode::pool(locals@), 0),
            expr::tidied(old(self)@, final(self)@, true),
    {
        let ghost c = self@;
        let ghost all = bytecode::pool(locals@);
        let mut i: usize = 0;
        while i < locals.len()
            invariant
                i <= locals.len(),
                all == bytecode::pool(locals@),
                expr::tidied(c, self@, true),
                lower::slots_of(self@, all, i as nat) == lower::slots_of(c, all, 0),
            decreases locals.len() - i,
        {
            assert(all[i as int] == locals@[i as int]@);
            self.slot(locals[i].as_str());
            i += 1;
        }
    }

    /// What a body starts with.
    fn emit_defaults(&mut self, params: &Params, span: Span) -> (r: Result<(), Unsupported>)
        ensures
            expr::done(r, final(self)@, lower::lower_defaults(old(self)@, *params, span)),
            expr::tidied(old(self)@, final(self)@, r is Ok),
        decreases *params, 0nat,
    {
        match params {
            Params::Explicit(list) => {
                if let Some(slot) = self.kwrest() {
                    self.gather_keywords(slot);
                }
                if let Err(u) = self.take_last_apart(list, span) {
                    return Err(u);
                }
                if let Err(u) = self.optional_defaults(&list.optional) {
                    return Err(u);
                }
                self.keyword_defaults(&list.keywords)
            },
            _ => Ok(()),
        }
    }

    /// Turn the keywords a `**kw` was bound to into a hash.
    fn gather_keywords(&mut self, slot: u16)
        ensures
            final(self)@ == lower::gather_keywords(old(self)@, slot),
            expr::tidied(old(self)@, final(self)@, true),
    {
        self.push_const_name("Hash");
        self.emit(Insn::GetLocal(slot, 0));
        self.emit_send("__from_pairs__", 1);
        self.emit(Insn::SetLocal(slot, 0));
    }

    /// Take the last required parameter apart where it is to be.
    fn take_last_apart(&mut self, list: &ParamList, span: Span) -> (r: Result<(), Unsupported>)
        ensures
            expr::done(r, final(self)@, lower::lower_last(old(self)@, *list, span)),
            expr::tidied(old(self)@, final(self)@, r is Ok),
        decreases *list, 0nat,
    {
        let posts: usize = list.posts.len();
        let required: usize = list.required.len();
        if posts > 0 {
            self.take_apart(&list.posts[posts - 1], span)
        } else if required > 0 {
            self.take_apart(&list.required[required - 1], span)
        } else {
            Ok(())
        }
    }

    /// Take a required parameter apart where it is to be.
    fn take_apart(&mut self, param: &RequiredParam, span: Span) -> (r: Result<(), Unsupported>)
        ensures
            expr::done(r, final(self)@, lower::lower_taken_apart(old(self)@, *param, span)),
            expr::tidied(old(self)@, final(self)@, r is Ok),
        decreases *param, 0nat,
    {
        match param {
            RequiredParam::Named(_) => Ok(()),
            RequiredParam::Destructure(multi) => {
                let mut names: Vec<String> = Vec::new();
                assert(bytecode::pool(names@) =~= Seq::empty());
                collect_names(multi, &mut names);
                if names.len() == 0 {
                    return Ok(());
                }
                assert(bytecode::pool(names@)[0] == names@[0]@);
                let slot: u16 = self.slot(names[0].as_str());
                self.destructure(multi, slot, span)
            },
        }
    }

    /// Take a parameter apart.
    fn destructure(&mut self, multi: &MultiTarget, slot: u16, span: Span) -> (r: Result<
        (),
        Unsupported,
    >)
        ensures
            expr::done(
                r,
                final(self)@,
                lower::lower_destructure(old(self)@, *multi, slot, span),
            ),
            expr::tidied(old(self)@, final(self)@, r is Ok),
        decreases *multi, 2nat,
    {
        let mut prepared: Vec<Option<Slot>> = Vec::new();
        assert(assign::places(prepared@) =~= Seq::empty());
        if let Err(u) = self.prepare_multi(multi, &mut prepared) {
            return Err(u);
        }
        self.push_const_name("Array");
        self.emit(Insn::GetLocal(slot, 0));
        self.emit_send("__masgn_array__", 1);
        let _ = match self.spread_into(multi, &prepared, 0, span) {
            Ok(v) => v,
            Err(u) => {
                return Err(u);
            },
        };
        self.emit(Insn::Pop);
        Ok(())
    }

    fn optional_defaults(&mut self, params: &Vec<OptionalParam>) -> (r: Result<(), Unsupported>)
        ensures
            expr::done(r, final(self)@, lower::lower_optional_defaults(old(self)@, params@, 0)),
            expr::tidied(old(self)@, final(self)@, r is Ok),
        decreases *params, 0nat,
    {
        let ghost c = self@;
        let mut i: usize = 0;
        while i < params.len()
            invariant
                i <= params.len(),
                c == old(self)@,
                expr::tidied(c, self@, true),
                lower::lower_optional_defaults(self@, params@, i as nat)
                    == lower::lower_optional_defaults(c, params@, 0),
            decreases params.len() - i,
        {
            if let Err(u) = self.default_of(params[i].name.as_str(), &params[i].default) {
                return Err(u);
            }
            i += 1;
        }
        Ok(())
    }

    fn keyword_defaults(&mut self, params: &Vec<KeywordParam>) -> (r: Result<(), Unsupported>)
        ensures
            expr::done(r, final(self)@, lower::lower_keyword_defaults(old(self)@, params@, 0)),
            expr::tidied(old(self)@, final(self)@, r is Ok),
        decreases *params, 0nat,
    {
        let ghost c = self@;
        let mut i: usize = 0;
        while i < params.len()
            invariant
                i <= params.len(),
                c == old(self)@,
                expr::tidied(c, self@, true),
                lower::lower_keyword_defaults(self@, params@, i as nat)
                    == lower::lower_keyword_defaults(c, params@, 0),
            decreases params.len() - i,
        {
            if let Some(default) = &params[i].default {
                if let Err(u) = self.default_of(params[i].name.as_str(), default) {
                    return Err(u);
                }
            }
            i += 1;
        }
        Ok(())
    }

    /// What is computed for a parameter that was not given.
    fn default_of(&mut self, name: &str, default: &Expr) -> (r: Result<(), Unsupported>)
        ensures
            expr::done(r, final(self)@, lower::lower_default(old(self)@, name@, *default)),
            expr::tidied(old(self)@, final(self)@, r is Ok),
        decreases *default, 1nat,
    {
        let slot: u16 = self.slot(name);
        self.emit(Insn::GetLocal(slot, 0));
        let supplied = self.emit_jump(Jump::UnlessUndef);
        if let Err(u) = self.expr(default) {
            return Err(u);
        }
        self.emit(Insn::SetLocal(slot, 0));
        self.patch_here(supplied);
        Ok(())
    }
}

/// What a bare `super` in a method forwards.
fn forwards(spec: &ParamSpec, keywords: &Vec<KeywordParam>) -> (r: Zsuper)
    requires
        spec@.keywords.len() <= keywords@.len(),
    ensures
        r@ == lower::zsuper_of(spec@, keywords@),
{
    let ghost model = lower::zsuper_of(spec@, keywords@);
    let mut positional: Vec<(u16, bool)> = Vec::new();
    let mut i: u16 = 0;
    while i < spec.required
        invariant
            i <= spec.required,
            model == lower::zsuper_of(spec@, keywords@),
            positional@ == model.positional.take(i as int),
        decreases spec.required - i,
    {
        positional.push((i, false));
        i = i + 1;
        assert(positional@ =~= model.positional.take(i as int));
    }
    let mut j: usize = 0;
    while j < spec.optional.len()
        invariant
            i == spec.required,
            j <= spec.optional.len(),
            model == lower::zsuper_of(spec@, keywords@),
            positional@ == model.positional.take(spec.required + j),
        decreases spec.optional.len() - j,
    {
        positional.push((spec.optional[j].slot, false));
        j += 1;
        assert(positional@ =~= model.positional.take(spec.required + j));
    }
    if let Some(slot) = spec.rest {
        positional.push((slot, true));
    }
    let ghost posts = spec.required + spec.optional@.len() + (if spec.rest is Some {
        1int
    } else {
        0
    });
    assert(positional@ =~= model.positional.take(posts));
    let optionals: usize = spec.optional.len();
    let base: u128 = spec.required as u128 + optionals as u128 + (if spec.rest.is_some() {
        1
    } else {
        0
    });
    let mut k: u16 = 0;
    while k < spec.post
        invariant
            k <= spec.post,
            base == posts,
            0 <= base <= u64::MAX as u128 + 0x2_0000,
            posts == spec.required + spec.optional@.len() + (if spec.rest is Some {
                1int
            } else {
                0
            }),
            model == lower::zsuper_of(spec@, keywords@),
            positional@ == model.positional.take(posts + k),
        decreases spec.post - k,
    {
        let place: u128 = base + k as u128;
        #[verifier::truncate]
        let slot: u16 = place as u16;
        positional.push((slot, false));
        assert(model.positional[posts + k] == ((posts + k) as u16, false));
        k = k + 1;
        assert(positional@ =~= model.positional.take(posts + k));
    }
    let mut named: Vec<(String, u16)> = Vec::new();
    let mut n: usize = 0;
    while n < spec.keywords.len()
        invariant
            n <= spec.keywords.len(),
            spec@.keywords.len() <= keywords@.len(),
            named@.len() == n,
            forall|x: int|
                0 <= x < n ==> (#[trigger] named@[x]).0@ == keywords@[x].name@ && named@[x].1
                    == spec.keywords@[x].slot,
        decreases spec.keywords.len() - n,
    {
        named.push((keywords[n].name.as_str().to_owned(), spec.keywords[n].slot));
        n += 1;
    }
    let r = Zsuper { positional, keywords: named, depth: 0 };
    proof {
        assert(model.positional.take(posts + spec.post) =~= model.positional);
        assert(r@.keywords =~= model.keywords);
        assert(r@ =~= model);
    }
    r
}

/// Whether a name is in a list.
fn lists(names: &Vec<String>, name: &str) -> (r: bool)
    ensures
        r == bytecode::pool(names@).contains(name@),
{
    let ghost all = bytecode::pool(names@);
    let mut i: usize = 0;
    while i < names.len()
        invariant
            i <= names.len(),
            all == bytecode::pool(names@),
            forall|k: int| 0 <= k < i ==> #[trigger] all[k] != name@,
        decreases names.len() - i,
    {
        assert(all[i as int] == names@[i as int]@);
        if bytecode::same_text(&names[i], name) {
            return true;
        }
        i += 1;
    }
    false
}

/// The locals that taking a parameter apart binds, each once.
fn collect_names(multi: &MultiTarget, names: &mut Vec<String>)
    ensures
        bytecode::pool(final(names)@) == lower::bound_names(*multi, bytecode::pool(old(names)@)),
    decreases *multi, 1nat,
{
    collect_all(&multi.lefts, names);
    if let Some(rest) = &multi.rest {
        collect_by(rest, names);
    }
    collect_all(&multi.rights, names);
}

/// The locals that several targets bind.
fn collect_all(targets: &Vec<Target>, names: &mut Vec<String>)
    ensures
        bytecode::pool(final(names)@) == lower::bound_by_all(
            targets@,
            0,
            bytecode::pool(old(names)@),
        ),
    decreases *targets, 0nat,
{
    let ghost was = bytecode::pool(names@);
    let mut i: usize = 0;
    while i < targets.len()
        invariant
            i <= targets.len(),
            lower::bound_by_all(targets@, i as nat, bytecode::pool(names@))
                == lower::bound_by_all(targets@, 0, was),
        decreases targets.len() - i,
    {
        collect_by(&targets[i], names);
        i += 1;
    }
}

/// The locals that a target binds.
fn collect_by(target: &Target, names: &mut Vec<String>)
    ensures
        bytecode::pool(final(names)@) == lower::bound_by(*target, bytecode::pool(old(names)@)),
    decreases *target, 0nat,
{
    match &target.kind {
        TargetKind::Var(VarRef::Local { name, depth }) => {
            if *depth == 0 && !lists(names, name.as_str()) {
                let ghost was = bytecode::pool(names@);
                names.push(name.as_str().to_owned());
                assert(bytecode::pool(names@) =~= was.push(name@));
            }
        },
        TargetKind::Multi(inner) => collect_names(inner, names),
        TargetKind::Splat(Some(inner)) => collect_by(inner, names),
        _ => {},
    }
}

} // verus!
