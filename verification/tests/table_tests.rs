use masm_formatter::format_code;

const CASES: [(&str, &str); 160] = [
    ("export.f::g\nif.true\nexport.f->g\nproc\nbegin\nconst.B=2 # v\nproc.q.2\nif\n", "export.f::g\nif.true\nexport.f->g\n    proc\n        begin\n            const.B=2 # v\n            proc.q.2\n                if\n"),
    ("  # c2\nexport.f\nif.true\nconst.B=2 # v\nrepeat.3\n  # c2\nuse.b::c\n\n", "# c2\nexport.f\n    if.true\n        const.B=2 # v\n        repeat.3\n            # c2\n            use.b::c\n"),
    ("\tmul\t\n#! ==== S ====\nconst.B=2 # v\nexport.f\n", "mul\n#! ==== S ====\nconst.B=2 # v\nexport.f\n"),
    ("const.A=1\n\n", "const.A=1\n"),
    ("\tmul\t\n#! => [a, b]\n# ====\nwhile.true\npush.1 # note\nrepeat.3\nconst.A=1", "mul\n#! => [a, b]\n# ====\nwhile.true\n    push.1 # note\n    repeat.3\n        const.A=1\n"),
    ("export\nproc\nwhile.true\nexport.f\nproc\nproc.p", "export\n    proc\n        while.true\n            export.f\n                proc\n                    proc.p\n"),
    ("proc.p", "proc.p\n"),
    ("exec.p\nwhile.true\nproc\n#! => [a, b]\nrepeat.3\n\n", "exec.p\nwhile.true\n    proc\n        #! => [a, b]\n\n        repeat.3\n"),
    ("proc.q.2\n\tmul\t\nadd\n# ====", "proc.q.2\n    mul\n    add\n    # ====\n"),
    ("if\n#! ==== S ====\nbegin\npush.1 # note\nrepeat.3\nrepeat.3\n\n", "if\n    #! ==== S ====\n    begin\n        push.1 # note\n        repeat.3\n            repeat.3\n"),
    ("#! doc\n# ====\nrepeat.3\nexport.f\nuse.b::c\n# => [x]\nexport.f::g\n", "#! doc\n# ====\nrepeat.3\n    export.f\n        use.b::c\n        # => [x]\nexport.f::g\n"),
    ("proc.q.2\nconst.A=1\nproc.p\n# c\nexport.f->g\nelse\nproc.q.2\n\tmul\t\n\n", "proc.q.2\n    const.A=1\n    proc.p\n        # c\nexport.f->g\n        else\n            proc.q.2\n                mul\n"),
    (" use.z \n  # c2\nexport\nproc\nexport.f->g", "use.z\n\n# c2\n\nexport\n    proc\nexport.f->g\n"),
    ("if.true\nend\n# ====\nbegin\n  # c2", "if.true\nend\n# ====\nbegin\n    # c2\n"),
    ("export.f\nexport.f->g\npush.1 # note\nexport.f::g\nexec.p\nproc.p\nwhile.true\nconst.A=1\n\n", "export.f\nexport.f->g\n    push.1 # note\nexport.f::g\n    exec.p\n    proc.p\n        while.true\n            const.A=1\n"),
    ("const.B=2 # v\n", "const.B=2 # v\n"),
    ("#! => [a, b]\nproc.p", "#! => [a, b]\nproc.p\n"),
    ("# ====\nexport.f\n# c\nexec.p\nexport.f::g\nproc.q.2\nif\n#! doc\n#! doc", "# ====\nexport.f\n    # c\n    exec.p\nexport.f::g\n    proc.q.2\n        if\n            #! doc\n            #! doc\n"),
    ("# => [x]\n\n# => [x]\n\n", "# => [x]\n\n# => [x]\n"),
    ("const.B=2 # v\nwhile.true\n", "const.B=2 # v\nwhile.true\n"),
    ("\nexport.f::g\nuse.a\n# => [x]\nexport.f\n\n", "\nexport.f::g\nuse.a\n# => [x]\nexport.f\n"),
    ("export.f->g\n\tmul\t\nexport.f::g\n use.z \n", "export.f->g\nmul\nexport.f::g\nuse.z\n"),
    ("\tmul\t\nend # x\nexport.f\nexportx\nend # x\n", "mul\nend # x\nexport.f\n    exportx\nend # x\n"),
    ("export.f\n#! doc\nif.true\n", "export.f\n    #! doc\n    if.true\n"),
    ("export.f::g\nconst.A=1\n\tmul\t\n", "export.f::g\nconst.A=1\nmul\n"),
    ("\nproc.p\nexec.p\nproc\n  \nexport.f\n\n", "\nproc.p\n    exec.p\n    proc\n\n        export.f\n"),
    ("if\nuse.a\nexport\nrepeat.3\n\nexec.p\nrepeat.3\nbegin\n\n", "if\n    use.a\n    export\n        repeat.3\n\n            exec.p\n            repeat.3\n                begin\n"),
    ("proc.p\n# => [x]\nexport", "proc.p\n    # => [x]\n\n    export\n"),
    ("export.f::g\n\nrepeat.3\n", "export.f::g\n\nrepeat.3\n"),
    ("if\n#! doc\nadd\n\tmul\t\nexport\n", "if\n    #! doc\n    add\n    mul\n    export\n"),
    ("#! doc\n  \n#! => [a, b]\n#! => [a, b]\nadd\nexport\n\n", "#! doc\n\n#! => [a, b]\n#! => [a, b]\n\nadd\nexport\n"),
    ("exec.p\n# => [x]\nuse.a\n\n", "exec.p\n# => [x]\n\nuse.a\n"),
    ("\nend\nproc.p\n#! => [a, b]\nwhile.true\nconst.B=2 # v\n# ====", "\nend\nproc.p\n    #! => [a, b]\n\n    while.true\n        const.B=2 # v\n        # ====\n"),
    ("export\n# => [x]\n\n", "export\n    # => [x]\n"),
    ("export\n#! doc\nproc.p\n\nexec.p", "export\n    #! doc\n    proc.p\n\n        exec.p\n"),
    ("push.1 # note\nconst.B=2 # v\nproc\nend # x\n\n", "push.1 # note\nconst.B=2 # v\nproc\nend # x\n"),
    ("proc.q.2\nelse\nend\n\n", "proc.q.2\n    else\n    end\n"),
    ("end # x\n#! => [a, b]\nexportx\nexportx\nelse\nwhile.true\n\n", "end # x\n#! => [a, b]\n\nexportx\nexportx\nelse\n    while.true\n"),
    ("proc.p\nproc.q.2\nconst.A=1\nproc.p\nproc\n\tmul\t\nif.true\nelse\nexport.f->g\n", "proc.p\n    proc.q.2\n        const.A=1\n        proc.p\n            proc\n                mul\n                if.true\n                else\nexport.f->g\n"),
    ("use.a\nbegin\npush.1 # note\nexport.f\nbegin\nproc\n  # c2\n# ====\nwhile.true\n", "use.a\n\nbegin\n    push.1 # note\n    export.f\n        begin\n            proc\n                # c2\n                # ====\n                while.true\n"),
    ("# ====\n# c\nexec.p\nproc.p\n\tmul\t\nend\nelse\nproc.q.2\n  # c2\n", "# ====\n# c\nexec.p\nproc.p\n    mul\nend\n\nelse\n    proc.q.2\n        # c2\n"),
    ("export.f::g\n use.z \nadd\n\npush.1 # note\n\n", "export.f::g\nuse.z\nadd\n\npush.1 # note\n"),
    ("# ====\n# => [x]\n", "# ====\n# => [x]\n"),
    ("export.f->g\nuse.b::c\nbegin\n  \nbegin\n  # c2", "export.f->g\nuse.b::c\nbegin\n\n    begin\n        # c2\n"),
    ("#! doc\nexport.f->g\n use.z \nend\nuse.b::c\n\tmul\t\n#! => [a, b]", "#! doc\nexport.f->g\nuse.z\nend\nuse.b::c\nmul\n#! => [a, b]\n"),
    ("# ====\npush.1 # note\n# => [x]\nproc.p\nproc.q.2", "# ====\npush.1 # note\n# => [x]\nproc.p\n    proc.q.2\n"),
    ("# ====\npush.1 # note\n# => [x]\n# ====\nrepeat.3\n", "# ====\npush.1 # note\n# => [x]\n# ====\nrepeat.3\n"),
    ("repeat.3\nproc.q.2\n\nend\npush.1 # note\n# ====\n\n", "repeat.3\n    proc.q.2\n\n    end\n\n    push.1 # note\n    # ====\n"),
    ("#! doc\nexec.p\nbegin\nexport.f\n# ====\n\n", "#! doc\nexec.p\nbegin\n    export.f\n        # ====\n"),
    ("const.B=2 # v\nexport.f->g\n# ====\n# ====\nproc.p\nbegin\n\n\n", "const.B=2 # v\nexport.f->g\n# ====\n# ====\nproc.p\n    begin\n"),
    ("export\n  # c2\n", "export\n    # c2\n"),
    (" use.z ", "use.z\n"),
    ("add\n\tmul\t\nconst.A=1\nelse\n use.z \n\n", "add\nmul\nconst.A=1\nelse\n    use.z\n"),
    ("  \nelse\nexport.f::g\npush.1 # note\nif\nadd\nexec.p\nif\n", "\nelse\nexport.f::g\n    push.1 # note\n    if\n        add\n        exec.p\n        if\n"),
    ("use.b::c\nexec.p\nend", "use.b::c\n\nexec.p\nend\n"),
    ("end # x\n\tmul\t\nwhile.true\n\n", "end # x\nmul\nwhile.true\n"),
    ("#! ==== S ====\n\n", "#! ==== S ====\n"),
    ("export\nuse.a\n", "export\n    use.a\n"),
    ("# c\n use.z \n", "# c\nuse.z\n"),
    ("  # c2\nexec.p\nproc.p\nwhile.true\n\n", "# c2\nexec.p\nproc.p\n    while.true\n"),
    ("if.true\nif\nelse\nuse.a\nexport.f\nconst.B=2 # v\n use.z \nproc.q.2\nif.true\n\n", "if.true\n    if\n    else\n        use.a\n        export.f\n            const.B=2 # v\n            use.z\n            proc.q.2\n                if.true\n"),
    ("begin\nrepeat.3\n  \n# ====\nconst.B=2 # v\nconst.B=2 # v\n", "begin\n    repeat.3\n\n        # ====\n        const.B=2 # v\n        const.B=2 # v\n"),
    ("const.A=1\n#! ==== S ====\nuse.a\nconst.A=1\n\nwhile.true\n", "const.A=1\n#! ==== S ====\nuse.a\nconst.A=1\n\nwhile.true\n"),
    ("export.f::g\nelse\n\tmul\t\n  # c2", "export.f::g\nelse\n    mul\n    # c2\n"),
    ("# => [x]\n use.z \nbegin\n", "# => [x]\nuse.z\n\nbegin\n"),
    ("proc", "proc\n"),
    ("# ====\nadd\n\n", "# ====\nadd\n"),
    ("proc\nproc.q.2\n#! => [a, b]\nrepeat.3\nend # x\nwhile.true", "proc\n    proc.q.2\n        #! => [a, b]\n\n        repeat.3\n        end # x\n        while.true\n"),
    ("proc\nend # x\nexport.f->g\n# ====\n#! => [a, b]\nexec.p\nproc\nif\nexportx\n", "proc\nend # x\n\nexport.f->g\n# ====\n#! => [a, b]\n\nexec.p\nproc\n    if\n        exportx\n"),
    ("proc.p\n  \nend # x\n  # c2\nuse.b::c\nend\n#! => [a, b]\nadd\n\n", "proc.p\n\nend # x\n\n# c2\nuse.b::c\nend\n#! => [a, b]\n\nadd\n"),
    ("add\nuse.b::c\nwhile.true\n use.z \n use.z \nend\nproc\npush.1 # note\nexec.p\n\n", "add\nuse.b::c\nwhile.true\n    use.z\n    use.z\nend\nproc\n    push.1 # note\n    exec.p\n"),
    ("#! => [a, b]\n\nproc.q.2\n  # c2\nexport", "#! => [a, b]\nproc.q.2\n    # c2\n    export\n"),
    ("export.f->g\n\n\n", "export.f->g\n"),
    ("# => [x]\n", "# => [x]\n"),
    ("proc.p\nproc.q.2\n  # c2\n", "proc.p\n    proc.q.2\n        # c2\n"),
    ("#! ==== S ====\n  \n", "#! ==== S ====\n"),
    ("# c\n  # c2\nadd\n#! doc\n# => [x]\nadd\n", "# c\n# c2\nadd\n#! doc\n# => [x]\n\nadd\n"),
    ("exec.p\n\n", "exec.p\n"),
    ("end # x\nproc.q.2\n  \n#! ==== S ====\nconst.A=1\nend\nconst.B=2 # v", "end # x\nproc.q.2\n\n    #! ==== S ====\n    const.A=1\nend\n\nconst.B=2 # v\n"),
    ("proc.q.2\nadd\nend # x\nuse.a\n#! ==== S ====\nexport.f\nrepeat.3\nuse.b::c\n\n", "proc.q.2\n    add\nend # x\n\nuse.a\n#! ==== S ====\nexport.f\n    repeat.3\n        use.b::c\n"),
    ("\tmul\t\n# c\n\n", "mul\n# c\n"),
    ("proc.p\n", "proc.p\n"),
    ("\tmul\t\nexport.f\nexport.f->g", "mul\nexport.f\nexport.f->g\n"),
    ("proc\n# c\nproc\n  # c2\npush.1 # note\n  # c2\nend\n#! ==== S ====", "proc\n    # c\n    proc\n        # c2\n        push.1 # note\n        # c2\n    end\n\n    #! ==== S ====\n"),
    ("export.f->g\n#! ==== S ====\n use.z \n\n# ====\nend\n", "export.f->g\n#! ==== S ====\nuse.z\n\n# ====\nend\n"),
    ("export\nexportx\n#! doc\npush.1 # note\n", "export\n    exportx\n    #! doc\n    push.1 # note\n"),
    ("#! => [a, b]\nend\nconst.B=2 # v\nbegin\n#! ==== S ====\nwhile.true\n#! => [a, b]\nadd", "#! => [a, b]\nend\nconst.B=2 # v\nbegin\n    #! ==== S ====\n    while.true\n        #! => [a, b]\n\n        add\n"),
    ("if\n#! => [a, b]\nexport.f->g\n# ====\n  # c2\n# ====\n", "if\n    #! => [a, b]\nexport.f->g\n# ====\n    # c2\n    # ====\n"),
    ("exportx\n\tmul\t\n\n", "exportx\nmul\n"),
    ("end # x\nif\nwhile.true\nwhile.true\n  # c2\nproc.q.2\nexport.f::g", "end # x\nif\n    while.true\n        while.true\n            # c2\n            proc.q.2\nexport.f::g\n"),
    ("\nexec.p\n\tmul\t\nexec.p\nadd\n  \nif.true\n\n", "\nexec.p\nmul\nexec.p\nadd\n\nif.true\n"),
    ("end\nproc.p\nproc.p\n\n", "end\nproc.p\n    proc.p\n"),
    ("\tmul\t\nconst.A=1\n  # c2\n# c\n\tmul\t\n  # c2\nif.true\n", "mul\nconst.A=1\n# c2\n# c\nmul\n# c2\nif.true\n"),
    ("export.f->g\n\n", "export.f->g\n"),
    ("export.f\nelse\nend # x\nexport\nexec.p\n# c\n#! ==== S ====\n use.z \n\n", "export.f\n    else\n    end # x\n\n    export\n        exec.p\n        # c\n        #! ==== S ====\n        use.z\n"),
    ("proc\nif.true\nend\nexec.p\nrepeat.3\n# c\n#! ==== S ====\nexport.f->g\n# c\n\n", "proc\n    if.true\n    end\n    exec.p\n    repeat.3\n        # c\n        #! ==== S ====\nexport.f->g\n# c\n"),
    ("  \nif\nexport.f\n#! doc\n#! doc\n# c\nbegin\nexportx\n#! ==== S ====\n\n", "\nif\n    export.f\n        #! doc\n        #! doc\n        # c\n        begin\n            exportx\n            #! ==== S ====\n"),
    ("if.true\nwhile.true\nrepeat.3\nif\nexport.f::g\nend # x", "if.true\n    while.true\n        repeat.3\n            if\nexport.f::g\n            end # x\n"),
    ("end # x\n# c\nexec.p\n  \n  \nproc\nelse", "end # x\n# c\nexec.p\n\nproc\n    else\n"),
    ("  \n# => [x]\n# ====\nexport.f", "# => [x]\n# ====\nexport.f\n"),
    ("#! => [a, b]\n# => [x]\nrepeat.3", "#! => [a, b]\n# => [x]\n\nrepeat.3\n"),
    ("proc.p\nexec.p\n", "proc.p\n    exec.p\n"),
    (" use.z \nexport.f->g\n\nif.true\n\n", "use.z\n\nexport.f->g\n\nif.true\n"),
    ("push.1 # note\nend\n\nuse.b::c\n  # c2\nend # x\n", "push.1 # note\nend\n\nuse.b::c\n# c2\nend # x\n"),
    ("proc\nconst.B=2 # v\nexport.f->g\n\tmul\t\n#! ==== S ====\n# c\n", "proc\n    const.B=2 # v\nexport.f->g\n    mul\n    #! ==== S ====\n    # c\n"),
    ("#! doc\nproc.p\n\n", "#! doc\nproc.p\n"),
    ("  # c2\nproc.q.2\nexportx\n#! doc\nconst.A=1\nexport.f", "# c2\nproc.q.2\n    exportx\n    #! doc\n    const.A=1\n    export.f\n"),
    ("use.b::c\nexport.f::g\nproc.q.2\n\nif.true\n#! => [a, b]\nproc.q.2\n", "use.b::c\n\nexport.f::g\nproc.q.2\n\n    if.true\n        #! => [a, b]\n        proc.q.2\n"),
    ("proc\nexport.f\nuse.a\nuse.a\nend\nexport.f\n\n", "proc\n    export.f\n        use.a\n        use.a\n    end\n\n    export.f\n"),
    ("end # x\nexport.f\n\nproc.p\n# c\nconst.B=2 # v", "end # x\nexport.f\n\n    proc.p\n        # c\n        const.B=2 # v\n"),
    ("begin\n use.z \n  # c2\nexport.f::g\n  # c2\nadd\nuse.a\n  \n", "begin\n    use.z\n    # c2\nexport.f::g\n# c2\n    add\n    use.a\n"),
    ("while.true\nexport\nexportx\nuse.b::c\n# c\nexport.f::g\nwhile.true\n\n", "while.true\n    export\n        exportx\n        use.b::c\n        # c\nexport.f::g\n        while.true\n"),
    ("# ====\n# => [x]\nadd\nif\nproc.p", "# ====\n# => [x]\n\nadd\nif\n    proc.p\n"),
    ("export.f::g\npush.1 # note\nadd\n# ====\nuse.a\npush.1 # note\nexport.f::g\n\n", "export.f::g\npush.1 # note\nadd\n# ====\nuse.a\npush.1 # note\nexport.f::g\n"),
    ("# c\nproc.p\nproc.q.2\nend\n# ====\nif.true\n\n", "# c\nproc.p\n    proc.q.2\n    end\n\n    # ====\n    if.true\n"),
    (" use.z \n", "use.z\n"),
    ("proc\nconst.A=1\nuse.a\n\nend\n  \nif", "proc\n    const.A=1\n    use.a\n\nend\n\nif\n"),
    ("  # c2\nexport.f->g\nproc.q.2\nexec.p\n", "# c2\nexport.f->g\nproc.q.2\n    exec.p\n"),
    ("exec.p\n\nuse.b::c", "exec.p\n\nuse.b::c\n"),
    ("#! => [a, b]\n", "#! => [a, b]\n"),
    ("if.true\n", "if.true\n"),
    ("use.a\nexec.p\n  \nconst.B=2 # v\n#! => [a, b]\nproc.q.2\nproc", "use.a\n\nexec.p\n\nconst.B=2 # v\n#! => [a, b]\nproc.q.2\n    proc\n"),
    ("use.b::c\n", "use.b::c\n"),
    ("# => [x]\n  \n", "# => [x]\n"),
    ("# c\n# => [x]\nexport\nexec.p\n  \n", "# c\n# => [x]\n\nexport\n    exec.p\n"),
    ("\tmul\t\n#! => [a, b]\npush.1 # note\npush.1 # note\n  # c2\n#! ==== S ====\nexport.f->g\npush.1 # note", "mul\n#! => [a, b]\n\npush.1 # note\npush.1 # note\n# c2\n#! ==== S ====\nexport.f->g\npush.1 # note\n"),
    ("#! ==== S ====\nexport.f->g\nexport.f\nuse.a\nelse\nexec.p\nif.true\nexportx\n\n", "#! ==== S ====\nexport.f->g\nexport.f\n    use.a\n    else\n        exec.p\n        if.true\n            exportx\n"),
    ("end # x\n", "end # x\n"),
    ("if", "if\n"),
    ("else\n", "else\n"),
    ("add\nexport.f\nend # x", "add\nexport.f\nend # x\n"),
    ("if.true\n  # c2\nexport.f->g\n\n", "if.true\n    # c2\nexport.f->g\n"),
    ("end\nexport.f\nend # x\nexport.f\nproc.p\nif\n  ", "end\nexport.f\nend # x\n\nexport.f\n    proc.p\n        if\n"),
    ("exportx\nuse.a\n\n", "exportx\nuse.a\n"),
    ("export", "export\n"),
    ("begin\nexport\nif\n", "begin\n    export\n        if\n"),
    ("use.a\nend # x\n  \n#! doc\n\tmul\t\n", "use.a\n\nend # x\n\n#! doc\nmul\n"),
    ("if\nexport", "if\n    export\n"),
    ("  \nexportx\nwhile.true", "\nexportx\nwhile.true\n"),
    ("repeat.3\nexport\nelse\nexportx\n# => [x]\nif.true\n", "repeat.3\n    export\n        else\n            exportx\n            # => [x]\n\n            if.true\n"),
    ("const.A=1\nexport\n", "const.A=1\nexport\n"),
    ("else\n\tmul\t\n", "else\n    mul\n"),
    ("use.a\n# c\n  \nend # x\nadd\n use.z \nexport.f", "use.a\n\n# c\n\nend # x\nadd\nuse.z\nexport.f\n"),
    ("# c\n# c", "# c\n# c\n"),
    ("repeat.3\n  # c2\nproc.q.2\n# => [x]\n  \n", "repeat.3\n    # c2\n    proc.q.2\n        # => [x]\n"),
    ("# => [x]\nadd", "# => [x]\n\nadd\n"),
    ("end\n\nexport\n use.z \n# => [x]\n\n", "end\n\nexport\n    use.z\n    # => [x]\n"),
    ("export\n use.z \nwhile.true\nadd\nproc.q.2\n\tmul\t\nproc\n# => [x]\nend # x", "export\n    use.z\n    while.true\n        add\n        proc.q.2\n            mul\n            proc\n                # => [x]\n            end # x\n"),
    ("\n#! doc\nexport.f::g\nexport.f::g\nexport.f::g\nexport.f->g\n# c\nconst.A=1", "#! doc\nexport.f::g\nexport.f::g\nexport.f::g\nexport.f->g\n# c\nconst.A=1\n"),
    ("push.1 # note\n\n# => [x]\nend # x", "push.1 # note\n\n# => [x]\nend # x\n"),
    ("use.a\nconst.A=1\nadd\nproc\nbegin\nadd\nexport.f\n", "use.a\n\nconst.A=1\nadd\nproc\n    begin\n        add\n        export.f\n"),
    ("#! ==== S ====\n\n# ====\nif.true\n  # c2\nend\nadd\n", "#! ==== S ====\n\n# ====\nif.true\n    # c2\nend\nadd\n"),
    ("proc\n  # c2\nbegin\nproc.q.2\n#! doc\n# c\n  # c2\npush.1 # note\n\n", "proc\n    # c2\n    begin\n        proc.q.2\n            #! doc\n            # c\n            # c2\n            push.1 # note\n"),
    ("exportx\nuse.b::c\n#! => [a, b]\nif.true\n\tmul\t\n  \nexportx\npush.1 # note\nwhile.true", "exportx\nuse.b::c\n#! => [a, b]\n\nif.true\n    mul\n\n    exportx\n    push.1 # note\n    while.true\n"),
    ("if.true\n# => [x]", "if.true\n    # => [x]\n"),
    ("  \nrepeat.3\nrepeat.3\nend # x\nexport\n#! ==== S ====\nadd\nexport\n\n", "\nrepeat.3\n    repeat.3\n    end # x\n    export\n        #! ==== S ====\n        add\n        export\n"),
    ("push.1 # note\nend # x\nconst.A=1\n#! => [a, b]\nexport\nexport.f\nconst.A=1", "push.1 # note\nend # x\nconst.A=1\n#! => [a, b]\n\nexport\n    export.f\n        const.A=1\n"),
    ("repeat.3\nadd\nexport.f\n#! ==== S ====\n\n", "repeat.3\n    add\n    export.f\n        #! ==== S ====\n"),
    (" use.z \nproc.p\nconst.A=1\n", "use.z\n\nproc.p\n    const.A=1\n"),
    ("\n\tmul\t\nexport.f", "\nmul\nexport.f\n"),
];

#[test]
fn texts_are_formatted_as_expected() {
    for (input, expected) in CASES {
        assert_eq!(format_code(input), expected, "input: {:?}", input);
    }
}

#[test]
fn formatted_texts_end_with_one_line_feed() {
    for (input, _) in CASES {
        let output = format_code(input);
        assert!(output.ends_with('\n'));
        assert!(!output.ends_with("\n\n"));
        assert!(!output.contains("\n\n\n"));
    }
}
