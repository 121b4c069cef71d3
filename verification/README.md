# git-branchless-move

Moves commits and subtrees of a Git repository from one place to another: whole subtrees
(`--source`), the branch that a commit is on (`--base`), or exactly the named commits without their
descendants (`--exact`). They can be put onto a destination, between the destination and its
children (`--insert`), or folded into the destination (`--fixup`).

What the command decides is in `src/`, with contracts that Verus proves:

- `commit_set`, `graph`, `components`: sets of commits, the commit graph, and what is asked of it;
- `base`: where a branch begins;
- `selection`: from the arguments to the commits that are moved, and where to;
- `plan`: the operations that move them;
- `message`, `outcome`: what the user is told, and how the command ends;
- `command`: the course of the command as a whole;
- `laws`, `defaults`: what holds of every plan, and of arguments that are left out.

In the graph a commit goes by a number, and a parent has a smaller number than its children. Lists
of commits run from the newest, which is the one with the largest number, to the oldest. The sets
are those of the `dag` crate (`esl01-dag`); what is taken on trust from it is in `commit_set`.

`app/` connects this to a repository: it opens it, resolves revsets, numbers the commits, asks for
permission, and builds and carries out the rebase plan.
